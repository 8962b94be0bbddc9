//! The session state machine (RFC 4271 §8): from Idle to Established and back.
//!
//! The machine takes events and says what to do; connections, timers and messages are for
//! whoever drives it.

use vstd::prelude::*;

verus! {

/// The states of a session (§8.2.2).
#[derive(Clone, Copy, PartialEq, Eq, PartialOrd, Ord, Structural, Debug)]
pub enum State {
    /// The session is not wanted.
    Idle,
    /// A connection is being made.
    Connect,
    /// No connection could be made; to be tried again.
    Active,
    /// There is a connection, and an OPEN was sent.
    OpenSent,
    /// Both sent an OPEN; a KEEPALIVE is awaited.
    OpenConfirm,
    /// The session is up.
    Established,
}

/// What can happen to a session.
#[derive(Clone, Copy, PartialEq, Eq, Structural, Debug)]
pub enum Event {
    ManualStart,
    ManualStop,
    ConnectRetryTimerExpires,
    /// The peer was silent for too long.
    HoldTimerExpires,
    /// A KEEPALIVE is due.
    KeepaliveTimerExpires,
    TcpConnected,
    TcpConnectionFails,
    OpenReceived,
    KeepAliveReceived,
    UpdateReceived,
    NotificationReceived,
    /// The OPEN of the peer cannot be accepted.
    OpenError,
}

/// Error code: message header.
pub const CODE_MESSAGE_HEADER: u8 = 1;

/// Error code: OPEN message.
pub const CODE_OPEN_MESSAGE: u8 = 2;

/// Error code: UPDATE message.
pub const CODE_UPDATE_MESSAGE: u8 = 3;

/// Error code: hold timer expired.
pub const CODE_HOLD_TIMER_EXPIRED: u8 = 4;

/// Error code: state machine.
pub const CODE_FSM_ERROR: u8 = 5;

/// Error code: shut down on purpose.
pub const CODE_CEASE: u8 = 6;

/// What is to be done.
#[derive(Clone, Copy, PartialEq, Eq, Structural, Debug)]
pub enum Action {
    ConnectTcp,
    DropTcp,
    SendOpen,
    SendKeepalive,
    SendNotification { code: u8, subcode: u8 },
    StartConnectRetryTimer,
    StopConnectRetryTimer,
    StartHoldTimer,
    RestartHoldTimer,
    StartKeepaliveTimer,
    /// The session is up.
    SessionEstablished,
    /// The session is no longer up: its routes are to go.
    SessionDown,
}

/// The notification with an error code.
pub open spec fn notify(code: u8) -> Action {
    Action::SendNotification { code, subcode: 0 }
}

/// What is done on a stop or a NOTIFICATION: the session ends from every state.
pub open spec fn ending(s: State, cease: bool) -> Seq<Action> {
    (if cease {
        if s is Idle {
            Seq::empty()
        } else {
            seq![notify(6), Action::DropTcp]
        }
    } else {
        seq![Action::DropTcp]
    }) + (if s is Established {
        seq![Action::SessionDown]
    } else {
        Seq::empty()
    })
}

/// The next state, and what is to be done.
pub open spec fn step(s: State, ev: Event) -> (State, Seq<Action>) {
    match (s, ev) {
        (_, Event::ManualStop) => (State::Idle, ending(s, true)),
        (_, Event::NotificationReceived) => (State::Idle, ending(s, false)),
        (State::Idle, Event::ManualStart) => (
            State::Connect,
            seq![Action::StartConnectRetryTimer, Action::ConnectTcp],
        ),
        (State::Connect, Event::TcpConnected) => (
            State::OpenSent,
            seq![Action::StopConnectRetryTimer, Action::SendOpen, Action::StartHoldTimer],
        ),
        (State::Connect, Event::ConnectRetryTimerExpires) => (
            State::Connect,
            seq![Action::StartConnectRetryTimer, Action::ConnectTcp],
        ),
        (State::Connect, Event::TcpConnectionFails) => (
            State::Active,
            seq![Action::StartConnectRetryTimer],
        ),
        (State::Active, Event::TcpConnected) => (
            State::OpenSent,
            seq![Action::StopConnectRetryTimer, Action::SendOpen, Action::StartHoldTimer],
        ),
        (State::Active, Event::ConnectRetryTimerExpires) => (
            State::Connect,
            seq![Action::StartConnectRetryTimer, Action::ConnectTcp],
        ),
        (State::OpenSent, Event::OpenReceived) => (
            State::OpenConfirm,
            seq![Action::SendKeepalive, Action::StartKeepaliveTimer, Action::RestartHoldTimer],
        ),
        (State::OpenSent, Event::HoldTimerExpires) => (
            State::Idle,
            seq![notify(4), Action::DropTcp],
        ),
        (State::OpenSent, Event::OpenError) => (State::Idle, seq![notify(2), Action::DropTcp]),
        (State::OpenSent, Event::TcpConnectionFails) => (
            State::Active,
            seq![Action::DropTcp, Action::StartConnectRetryTimer],
        ),
        (State::OpenConfirm, Event::KeepAliveReceived) => (
            State::Established,
            seq![Action::RestartHoldTimer, Action::SessionEstablished],
        ),
        (State::OpenConfirm, Event::KeepaliveTimerExpires) => (
            State::OpenConfirm,
            seq![Action::SendKeepalive],
        ),
        (State::OpenConfirm, Event::HoldTimerExpires) => (
            State::Idle,
            seq![notify(4), Action::DropTcp],
        ),
        (State::OpenConfirm, Event::TcpConnectionFails) => (State::Idle, seq![Action::DropTcp]),
        (State::Established, Event::KeepAliveReceived) => (
            State::Established,
            seq![Action::RestartHoldTimer],
        ),
        (State::Established, Event::UpdateReceived) => (
            State::Established,
            seq![Action::RestartHoldTimer],
        ),
        (State::Established, Event::KeepaliveTimerExpires) => (
            State::Established,
            seq![Action::SendKeepalive],
        ),
        (State::Established, Event::HoldTimerExpires) => (
            State::Idle,
            seq![notify(4), Action::DropTcp, Action::SessionDown],
        ),
        (State::Established, Event::TcpConnectionFails) => (
            State::Idle,
            seq![Action::DropTcp, Action::SessionDown],
        ),
        _ => (s, Seq::empty()),
    }
}

/// The state machine of one peer.
#[derive(Clone, Copy, PartialEq, Eq, Structural, Debug)]
pub struct BgpFsm {
    pub state: State,
}

impl Default for BgpFsm {
    fn default() -> (r: BgpFsm)
        ensures
            r.state == State::Idle,
    {
        BgpFsm { state: State::Idle }
    }
}

impl BgpFsm {
    /// A session in [`State::Idle`].
    pub fn new() -> (r: BgpFsm)
        ensures
            r.state == State::Idle,
    {
        BgpFsm { state: State::Idle }
    }

    /// The state.
    pub fn state(&self) -> (r: State)
        ensures
            r == self.state,
    {
        self.state
    }

    /// Whether the session is up.
    pub fn is_established(&self) -> (r: bool)
        ensures
            r == (self.state is Established),
    {
        self.state == State::Established
    }

    /// Take an event; returns what is to be done.
    pub fn handle(&mut self, ev: Event) -> (r: Vec<Action>)
        ensures
            (final(self).state, r@) == step(old(self).state, ev),
    {
        let was = self.state;
        let established = was == State::Established;
        let mut acts: Vec<Action> = Vec::new();
        match ev {
            Event::ManualStop => {
                if was != State::Idle {
                    acts.push(Action::SendNotification { code: CODE_CEASE, subcode: 0 });
                    acts.push(Action::DropTcp);
                }
                if established {
                    acts.push(Action::SessionDown);
                }
                self.state = State::Idle;
                assert(acts@ =~= ending(was, true));
                return acts;
            },
            Event::NotificationReceived => {
                acts.push(Action::DropTcp);
                if established {
                    acts.push(Action::SessionDown);
                }
                self.state = State::Idle;
                assert(acts@ =~= ending(was, false));
                return acts;
            },
            _ => {},
        }
        match (was, ev) {
            (State::Idle, Event::ManualStart) => {
                self.state = State::Connect;
                acts.push(Action::StartConnectRetryTimer);
                acts.push(Action::ConnectTcp);
            },
            (State::Connect, Event::TcpConnected) => {
                self.state = State::OpenSent;
                acts.push(Action::StopConnectRetryTimer);
                acts.push(Action::SendOpen);
                acts.push(Action::StartHoldTimer);
            },
            (State::Connect, Event::ConnectRetryTimerExpires) => {
                acts.push(Action::StartConnectRetryTimer);
                acts.push(Action::ConnectTcp);
            },
            (State::Connect, Event::TcpConnectionFails) => {
                self.state = State::Active;
                acts.push(Action::StartConnectRetryTimer);
            },
            (State::Active, Event::TcpConnected) => {
                self.state = State::OpenSent;
                acts.push(Action::StopConnectRetryTimer);
                acts.push(Action::SendOpen);
                acts.push(Action::StartHoldTimer);
            },
            (State::Active, Event::ConnectRetryTimerExpires) => {
                self.state = State::Connect;
                acts.push(Action::StartConnectRetryTimer);
                acts.push(Action::ConnectTcp);
            },
            (State::OpenSent, Event::OpenReceived) => {
                self.state = State::OpenConfirm;
                acts.push(Action::SendKeepalive);
                acts.push(Action::StartKeepaliveTimer);
                acts.push(Action::RestartHoldTimer);
            },
            (State::OpenSent, Event::HoldTimerExpires) => {
                self.state = State::Idle;
                acts.push(
                    Action::SendNotification { code: CODE_HOLD_TIMER_EXPIRED, subcode: 0 },
                );
                acts.push(Action::DropTcp);
            },
            (State::OpenSent, Event::OpenError) => {
                self.state = State::Idle;
                acts.push(Action::SendNotification { code: CODE_OPEN_MESSAGE, subcode: 0 });
                acts.push(Action::DropTcp);
            },
            (State::OpenSent, Event::TcpConnectionFails) => {
                self.state = State::Active;
                acts.push(Action::DropTcp);
                acts.push(Action::StartConnectRetryTimer);
            },
            (State::OpenConfirm, Event::KeepAliveReceived) => {
                self.state = State::Established;
                acts.push(Action::RestartHoldTimer);
                acts.push(Action::SessionEstablished);
            },
            (State::OpenConfirm, Event::KeepaliveTimerExpires) => {
                acts.push(Action::SendKeepalive);
            },
            (State::OpenConfirm, Event::HoldTimerExpires) => {
                self.state = State::Idle;
                acts.push(
                    Action::SendNotification { code: CODE_HOLD_TIMER_EXPIRED, subcode: 0 },
                );
                acts.push(Action::DropTcp);
            },
            (State::OpenConfirm, Event::TcpConnectionFails) => {
                self.state = State::Idle;
                acts.push(Action::DropTcp);
            },
            (State::Established, Event::KeepAliveReceived) => {
                acts.push(Action::RestartHoldTimer);
            },
            (State::Established, Event::UpdateReceived) => {
                acts.push(Action::RestartHoldTimer);
            },
            (State::Established, Event::KeepaliveTimerExpires) => {
                acts.push(Action::SendKeepalive);
            },
            (State::Established, Event::HoldTimerExpires) => {
                self.state = State::Idle;
                acts.push(
                    Action::SendNotification { code: CODE_HOLD_TIMER_EXPIRED, subcode: 0 },
                );
                acts.push(Action::DropTcp);
                acts.push(Action::SessionDown);
            },
            (State::Established, Event::TcpConnectionFails) => {
                self.state = State::Idle;
                acts.push(Action::DropTcp);
                acts.push(Action::SessionDown);
            },
            _ => {},
        }
        assert(acts@ =~= step(was, ev).1);
        acts
    }
}

/// Whether something is to be done.
pub open spec fn tells(acts: Seq<Action>, a: Action) -> bool {
    exists|i: int| 0 <= i < acts.len() && #[trigger] acts[i] == a
}

proof fn lemma_told_at(acts: Seq<Action>, i: int)
    requires
        0 <= i < acts.len(),
    ensures
        tells(acts, acts[i]),
{
}

/// The routes of a peer are told to go exactly when its session leaves Established, and
/// the session is told to be up exactly when it comes there.
pub proof fn lemma_up_and_down_are_told(s: State, ev: Event)
    ensures
        tells(step(s, ev).1, Action::SessionDown) == (s is Established && !(step(
            s,
            ev,
        ).0 is Established)),
        tells(step(s, ev).1, Action::SessionEstablished) == (!(s is Established) && step(
            s,
            ev,
        ).0 is Established),
{
    let (next, acts) = step(s, ev);
    if s is Established && !(next is Established) {
        lemma_told_at(acts, acts.len() - 1);
    }
    if !(s is Established) && next is Established {
        lemma_told_at(acts, acts.len() - 1);
    }
}

/// Only a KEEPALIVE behind an exchange of OPEN messages brings a session up, and only a
/// connection lets an OPEN be sent.
pub proof fn lemma_the_way_up(s: State, ev: Event)
    ensures
        step(s, ev).0 is Established && !(s is Established) ==> s is OpenConfirm
            && ev is KeepAliveReceived,
        step(s, ev).0 is OpenConfirm && !(s is OpenConfirm) ==> s is OpenSent && ev is OpenReceived,
        step(s, ev).0 is OpenSent && !(s is OpenSent) ==> (s is Connect || s is Active)
            && ev is TcpConnected,
        s is Idle && !(ev is ManualStart) ==> step(s, ev).0 is Idle,
{
}

/// A stop and a NOTIFICATION end the session from every state, and a session that falls
/// back to Idle has its connection dropped.
pub proof fn lemma_the_way_down(s: State, ev: Event)
    ensures
        ev is ManualStop || ev is NotificationReceived ==> step(s, ev).0 is Idle,
        !(s is Idle) && step(s, ev).0 is Idle ==> tells(step(s, ev).1, Action::DropTcp),
{
    let (next, acts) = step(s, ev);
    if !(s is Idle) && next is Idle {
        if acts[0] == Action::DropTcp {
            lemma_told_at(acts, 0);
        } else {
            lemma_told_at(acts, 1);
        }
    }
}

/// No state that needs a connection outlives it: when the connection fails or the peer was
/// silent for too long, OpenSent, OpenConfirm and Established are left, and the connection
/// is dropped. Only OpenSent tries again; the others fall back to Idle. The peer is told of
/// its silence, and the routes of a session that was up are told to go.
pub proof fn lemma_a_lost_connection_is_given_up(s: State, ev: Event)
    requires
        s is OpenSent || s is OpenConfirm || s is Established,
        ev is TcpConnectionFails || ev is HoldTimerExpires,
    ensures
        ({
            let (next, acts) = step(s, ev);
            &&& s is OpenSent && ev is TcpConnectionFails ==> next is Active
            &&& !(s is OpenSent && ev is TcpConnectionFails) ==> next is Idle
            &&& tells(acts, Action::DropTcp)
            &&& tells(acts, Action::SendNotification { code: 4, subcode: 0 })
                == ev is HoldTimerExpires
            &&& tells(acts, Action::SessionDown) == s is Established
        }),
{
    lemma_told_of_connections(s, ev);
    lemma_told_of_errors(s, ev, 4, 0);
    lemma_up_and_down_are_told(s, ev);
}

/// Each state is entered from another one on these events and on no others.
pub proof fn lemma_each_state_is_entered(s: State, ev: Event)
    ensures
        ({
            let next = step(s, ev).0;
            &&& next is Established && !(s is Established) <==> s is OpenConfirm
                && ev is KeepAliveReceived
            &&& next is OpenConfirm && !(s is OpenConfirm) <==> s is OpenSent
                && ev is OpenReceived
            &&& next is OpenSent && !(s is OpenSent) <==> (s is Connect || s is Active)
                && ev is TcpConnected
            &&& next is Connect && !(s is Connect) <==> (s is Idle && ev is ManualStart) || (
            s is Active && ev is ConnectRetryTimerExpires)
            &&& next is Active && !(s is Active) <==> (s is Connect || s is OpenSent)
                && ev is TcpConnectionFails
            &&& next is Idle && !(s is Idle) <==> !(s is Idle) && (ev is ManualStop
                || ev is NotificationReceived || (ev is HoldTimerExpires && !(s is Connect)
                && !(s is Active)) || (ev is OpenError && s is OpenSent) || (
            ev is TcpConnectionFails && (s is OpenConfirm || s is Established)))
        }),
{
}

/// When connections are made and dropped, and when the retry timer runs: it is started
/// with every attempt and every failure before an OPEN came, and stopped by a connection.
pub proof fn lemma_told_of_connections(s: State, ev: Event)
    ensures
        ({
            let (next, acts) = step(s, ev);
            let attempt = (s is Idle && ev is ManualStart) || ((s is Connect || s is Active)
                && ev is ConnectRetryTimerExpires);
            let failure = (s is Connect || s is OpenSent) && ev is TcpConnectionFails;
            let connected = (s is Connect || s is Active) && ev is TcpConnected;
            &&& tells(acts, Action::ConnectTcp) == attempt
            &&& tells(acts, Action::StartConnectRetryTimer) == (attempt || failure)
            &&& tells(acts, Action::StopConnectRetryTimer) == connected
            &&& tells(acts, Action::SendOpen) == connected
            &&& tells(acts, Action::StartHoldTimer) == connected
            &&& tells(acts, Action::DropTcp) == (ev is NotificationReceived || (!(s is Idle)
                && next is Idle) || (s is OpenSent && ev is TcpConnectionFails))
        }),
{
    let acts = step(s, ev).1;
    lemma_told(acts);
}

/// When the session is kept alive: a KEEPALIVE answers the OPEN and goes out when it is
/// due, and the hold timer starts again with whatever the peer sends in its turn.
pub proof fn lemma_told_of_liveness(s: State, ev: Event)
    ensures
        ({
            let acts = step(s, ev).1;
            let opened = s is OpenSent && ev is OpenReceived;
            let open = s is OpenConfirm || s is Established;
            &&& tells(acts, Action::SendKeepalive) == (opened || (open
                && ev is KeepaliveTimerExpires))
            &&& tells(acts, Action::StartKeepaliveTimer) == opened
            &&& tells(acts, Action::RestartHoldTimer) == (opened || (open
                && ev is KeepAliveReceived) || (s is Established && ev is UpdateReceived))
        }),
{
    lemma_told(step(s, ev).1);
}

/// The peer is told of a stop (6) from every state but Idle, of its silence (4) from every
/// state in which the hold timer runs, and of an OPEN that cannot be accepted (2); of
/// nothing else.
pub proof fn lemma_told_of_errors(s: State, ev: Event, code: u8, subcode: u8)
    ensures
        tells(step(s, ev).1, Action::SendNotification { code, subcode }) == (subcode == 0 && ((
        code == 6 && ev is ManualStop && !(s is Idle)) || (code == 4 && ev is HoldTimerExpires && (
        s is OpenSent || s is OpenConfirm || s is Established)) || (code == 2 && ev is OpenError
            && s is OpenSent))),
{
    lemma_told(step(s, ev).1);
}

/// The turn of an action among those that are told together.
pub open spec fn turn(a: Action) -> int {
    match a {
        Action::StopConnectRetryTimer => 0,
        Action::SendNotification { .. } => 1,
        Action::DropTcp => 2,
        Action::StartConnectRetryTimer => 3,
        Action::ConnectTcp => 4,
        Action::SendOpen => 5,
        Action::StartHoldTimer => 6,
        Action::SendKeepalive => 7,
        Action::StartKeepaliveTimer => 8,
        Action::RestartHoldTimer => 9,
        Action::SessionEstablished => 10,
        Action::SessionDown => 11,
    }
}

/// Each action is told at most once, and all in their turn: the notification goes out
/// before the connection is dropped, and the routes go after that.
pub proof fn lemma_told_in_turn(s: State, ev: Event, i: int, j: int)
    requires
        0 <= i < j < step(s, ev).1.len(),
    ensures
        turn(step(s, ev).1[i]) < turn(step(s, ev).1[j]),
{
}

proof fn lemma_told(acts: Seq<Action>)
    requires
        acts.len() <= 3,
    ensures
        forall|a: Action| #[trigger]
            tells(acts, a) <==> (acts.len() > 0 && acts[0] == a) || (acts.len() > 1 && acts[1] == a)
                || (acts.len() > 2 && acts[2] == a),
{
    assert forall|a: Action| #[trigger]
        tells(acts, a) <==> (acts.len() > 0 && acts[0] == a) || (acts.len() > 1 && acts[1] == a)
            || (acts.len() > 2 && acts[2] == a) by {
        if acts.len() > 0 && acts[0] == a {
            lemma_told_at(acts, 0);
        }
        if acts.len() > 1 && acts[1] == a {
            lemma_told_at(acts, 1);
        }
        if acts.len() > 2 && acts[2] == a {
            lemma_told_at(acts, 2);
        }
    }
}

/// The state after a run of events.
pub open spec fn after(s: State, evs: Seq<Event>) -> State
    decreases evs.len(),
{
    if evs.len() == 0 {
        s
    } else {
        step(after(s, evs.drop_last()), evs.last()).0
    }
}

/// From whatever state, a stop and a start bring a session up in four steps, and anything
/// that ends it leaves it in Idle until it is started again.
pub proof fn lemma_a_session_comes_up(s: State, evs: Seq<Event>)
    ensures
        after(
            s,
            seq![
                Event::ManualStop,
                Event::ManualStart,
                Event::TcpConnected,
                Event::OpenReceived,
                Event::KeepAliveReceived,
            ],
        ) is Established,
        s is Idle && (forall|i: int| 0 <= i < evs.len() ==> !(#[trigger] evs[i] is ManualStart))
            ==> after(s, evs) is Idle,
    decreases evs.len(),
{
    let all = seq![
        Event::ManualStop,
        Event::ManualStart,
        Event::TcpConnected,
        Event::OpenReceived,
        Event::KeepAliveReceived,
    ];
    let a4 = all.drop_last();
    let a3 = a4.drop_last();
    let a2 = a3.drop_last();
    let a1 = a2.drop_last();
    assert(a1.drop_last().len() == 0);
    assert(after(s, a1) is Idle);
    assert(after(s, a2) is Connect);
    assert(after(s, a3) is OpenSent);
    assert(after(s, a4) is OpenConfirm);
    if evs.len() > 0 && s is Idle && (forall|i: int|
        0 <= i < evs.len() ==> !(#[trigger] evs[i] is ManualStart)) {
        let f = evs.drop_last();
        assert forall|i: int| 0 <= i < f.len() implies !(#[trigger] f[i] is ManualStart) by {
            assert(!(evs[i] is ManualStart));
        }
        assert(!(evs[evs.len() - 1] is ManualStart));
        lemma_a_session_comes_up(s, f);
    }
}

} // verus!
