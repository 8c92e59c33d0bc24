use std::collections::VecDeque;

use leap_chain::ping_pong::{Message, PingPong, PingPongAction};

/// Runs the actor the way its runtime does: deliver each sent message, perform each action.
fn run() -> (String, u8, usize) {
    let actor = PingPong;
    let (mut state, first) = actor.pre_start();
    let mut mailbox: VecDeque<Message> = VecDeque::new();
    let mut printed = String::new();
    let mut handled = 0usize;
    for a in first {
        if let PingPongAction::Send(m) = a {
            mailbox.push_back(m);
        }
    }
    let mut stopped = false;
    while let Some(m) = mailbox.pop_front() {
        handled += 1;
        for a in actor.handle(m, &mut state) {
            match a {
                PingPongAction::Print(m) => printed.push_str(m.text()),
                PingPongAction::Send(m) => mailbox.push_back(m),
                PingPongAction::PrintNewline => printed.push('\n'),
                PingPongAction::Stop => stopped = true,
            }
        }
        if stopped {
            break;
        }
    }
    assert!(stopped);
    (printed, state, handled)
}

#[test]
fn test_actor1() {
    let (printed, state, handled) = run();
    assert_eq!(printed, "ping..pong..".repeat(5) + "\n");
    assert_eq!(state, 10);
    assert_eq!(handled, 11);
}

#[test]
fn next_alternates() {
    assert_eq!(Message::Ping.next(), Message::Pong);
    assert_eq!(Message::Pong.next(), Message::Ping);
    assert_eq!(Message::Ping.next().next(), Message::Ping);
}

#[test]
fn handle_counts_below_ten_and_stops_at_ten() {
    let actor = PingPong;
    let mut s = 9u8;
    assert_eq!(
        actor.handle(Message::Pong, &mut s),
        vec![PingPongAction::Print(Message::Pong), PingPongAction::Send(Message::Ping)]
    );
    assert_eq!(s, 10);
    assert_eq!(
        actor.handle(Message::Ping, &mut s),
        vec![PingPongAction::PrintNewline, PingPongAction::Stop]
    );
    assert_eq!(s, 10);
    let mut big = 200u8;
    assert_eq!(
        actor.handle(Message::Ping, &mut big),
        vec![PingPongAction::PrintNewline, PingPongAction::Stop]
    );
}

#[test]
fn texts() {
    assert_eq!(Message::Ping.text(), "ping..");
    assert_eq!(Message::Pong.text(), "pong..");
}
