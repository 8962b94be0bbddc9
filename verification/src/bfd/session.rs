//! The per-session BFD state machine (RFC 5880 §6.8.6), without I/O or clock.
//!
//! A runner feeds received packets to [`Session::on_packet`], reports silence with
//! [`Session::on_detect_timeout`], and sends what [`Session::build_control`] makes,
//! waiting [`Session::transmit_interval_us`] between packets and
//! [`Session::detection_time_us`] before it gives the neighbour up.

use vstd::prelude::*;

use crate::bfd::packet::{ControlPacket, Diag, State};

verus! {

/// The least Desired Min TX Interval (microseconds) that a session advertises while
/// it is not Up (RFC 5880 §6.8.3).
pub const SLOW_TX_FLOOR_US: u32 = 1_000_000;

/// A session's timing parameters.
#[derive(Clone, Copy, PartialEq, Eq, Structural, Debug)]
pub struct SessionConfig {
    /// Our Desired Min TX Interval (microseconds) once the session is Up.
    pub desired_min_tx_us: u32,
    /// Our Required Min RX Interval (microseconds).
    pub required_min_rx_us: u32,
    /// Our Detect Mult.
    pub detect_mult: u8,
}

/// A change of session state.
#[derive(Clone, Copy, PartialEq, Eq, Structural, Debug)]
pub struct Transition {
    /// The state before the event.
    pub from: State,
    /// The state after the event.
    pub to: State,
}

/// One BFD session: the state variables of RFC 5880 §6.8.1 that single-hop
/// asynchronous mode uses.
#[derive(Clone, Debug)]
pub struct Session {
    local_discr: u32,
    cfg: SessionConfig,
    state: State,
    local_diag: Diag,
    remote_discr: u32,
    remote_state: State,
    remote_min_rx_us: u32,
    remote_desired_tx_us: u32,
    remote_detect_mult: u8,
    send_final: bool,
}

/// The state variables of a session.
pub struct SessionView {
    pub local_discr: u32,
    pub cfg: SessionConfig,
    pub state: State,
    pub local_diag: Diag,
    /// The neighbour's discriminator, 0 while unknown.
    pub remote_discr: u32,
    pub remote_state: State,
    pub remote_min_rx_us: u32,
    pub remote_desired_tx_us: u32,
    pub remote_detect_mult: u8,
    /// Whether the next packet owes the Final bit to a received Poll.
    pub send_final: bool,
}

impl View for Session {
    type V = SessionView;

    closed spec fn view(&self) -> SessionView {
        SessionView {
            local_discr: self.local_discr,
            cfg: self.cfg,
            state: self.state,
            local_diag: self.local_diag,
            remote_discr: self.remote_discr,
            remote_state: self.remote_state,
            remote_min_rx_us: self.remote_min_rx_us,
            remote_desired_tx_us: self.remote_desired_tx_us,
            remote_detect_mult: self.remote_detect_mult,
            send_final: self.send_final,
        }
    }
}

/// The greater of two numbers.
pub open spec fn greater(a: int, b: int) -> int {
    if a >= b {
        a
    } else {
        b
    }
}

/// The state that a session in `state` moves to when the neighbour reports `heard`
/// (RFC 5880 §6.8.6), or `None` where it stays.
pub open spec fn next_state(state: State, heard: State) -> Option<State> {
    match (state, heard) {
        (State::Down, State::Down) => Some(State::Init),
        (State::Down, State::Init) => Some(State::Up),
        (State::Init, State::Init) => Some(State::Up),
        (State::Init, State::Up) => Some(State::Up),
        (State::Init, State::AdminDown) => Some(State::Down),
        (State::Up, State::Down) => Some(State::Down),
        (State::Up, State::AdminDown) => Some(State::Down),
        _ => None,
    }
}

impl SessionView {
    /// A session that has heard nothing yet.
    pub open spec fn fresh(local_discr: u32, cfg: SessionConfig) -> SessionView {
        SessionView {
            local_discr,
            cfg,
            state: State::Down,
            local_diag: Diag::NoDiagnostic,
            remote_discr: 0,
            remote_state: State::Down,
            remote_min_rx_us: 1,
            remote_desired_tx_us: 1,
            remote_detect_mult: 1,
            send_final: false,
        }
    }

    /// The session after a received packet: the neighbour's parameters are learned,
    /// a Poll is remembered, and the state moves as `next_state` says. On the way
    /// Down the diagnostic becomes Neighbor Signaled Down and the neighbour's
    /// discriminator is forgotten; on the way Up the diagnostic is cleared.
    pub open spec fn after_packet(self, pkt: ControlPacket) -> SessionView {
        let learned = SessionView {
            remote_discr: pkt.my_discr,
            remote_state: pkt.state,
            remote_min_rx_us: pkt.required_min_rx,
            remote_desired_tx_us: pkt.desired_min_tx,
            remote_detect_mult: pkt.detect_mult,
            send_final: self.send_final || pkt.poll,
            ..self
        };
        match next_state(self.state, pkt.state) {
            Some(State::Up) => SessionView {
                state: State::Up,
                local_diag: Diag::NoDiagnostic,
                ..learned
            },
            Some(State::Down) => SessionView {
                state: State::Down,
                local_diag: Diag::NeighborSignaledDown,
                remote_discr: 0,
                ..learned
            },
            Some(to) => SessionView { state: to, ..learned },
            None => learned,
        }
    }

    /// The session after the Detection Time passed in silence (RFC 5880 §6.8.4).
    pub open spec fn after_timeout(self) -> SessionView {
        if self.state == State::Up || self.state == State::Init {
            SessionView {
                state: State::Down,
                local_diag: Diag::ControlDetectionTimeExpired,
                remote_state: State::Down,
                remote_discr: 0,
                ..self
            }
        } else {
            self
        }
    }

    /// Our Desired Min TX Interval: the configured one when Up, and not less than one
    /// second otherwise.
    pub open spec fn effective_tx(self) -> int {
        if self.state == State::Up {
            self.cfg.desired_min_tx_us as int
        } else {
            greater(self.cfg.desired_min_tx_us as int, 1_000_000)
        }
    }

    /// How long to wait before the next packet.
    pub open spec fn transmit_interval(self) -> int {
        greater(self.effective_tx(), self.remote_min_rx_us as int) * (75 + self.local_discr % 16)
            / 100
    }

    /// How long the neighbour may be silent.
    pub open spec fn detection_time(self) -> int {
        self.remote_detect_mult * greater(
            self.cfg.required_min_rx_us as int,
            self.remote_desired_tx_us as int,
        )
    }

    /// The packet that the session sends next.
    pub open spec fn control(self) -> ControlPacket {
        ControlPacket {
            diag: self.local_diag,
            state: self.state,
            poll: false,
            final_: self.send_final,
            cpi: false,
            demand: false,
            detect_mult: self.cfg.detect_mult,
            my_discr: self.local_discr,
            your_discr: self.remote_discr,
            desired_min_tx: self.effective_tx() as u32,
            required_min_rx: self.cfg.required_min_rx_us,
            required_min_echo_rx: 0,
            auth_present: false,
        }
    }
}

/// The transition from one state to another, or `None` where they are the same.
pub open spec fn change(from: State, to: State) -> Option<Transition> {
    if from == to {
        None
    } else {
        Some(Transition { from, to })
    }
}

impl Session {
    /// A fresh session in state Down. `local_discr` identifies the session on this
    /// system and must not be zero on the wire.
    pub fn new(local_discr: u32, cfg: SessionConfig) -> (r: Session)
        ensures
            r@ == SessionView::fresh(local_discr, cfg),
    {
        Session {
            local_discr,
            cfg,
            state: State::Down,
            local_diag: Diag::NoDiagnostic,
            remote_discr: 0,
            remote_state: State::Down,
            remote_min_rx_us: 1,
            remote_desired_tx_us: 1,
            remote_detect_mult: 1,
            send_final: false,
        }
    }

    /// The current session state.
    pub fn state(&self) -> (r: State)
        ensures
            r == self@.state,
    {
        self.state
    }

    /// Our discriminator.
    pub fn local_discr(&self) -> (r: u32)
        ensures
            r == self@.local_discr,
    {
        self.local_discr
    }

    /// The neighbour's discriminator as last learned, 0 while it is unknown.
    pub fn remote_discr(&self) -> (r: u32)
        ensures
            r == self@.remote_discr,
    {
        self.remote_discr
    }

    /// Fold a received packet into the session. Returns the transition where the
    /// state changed.
    pub fn on_packet(&mut self, pkt: &ControlPacket) -> (r: Option<Transition>)
        ensures
            final(self)@ == old(self)@.after_packet(*pkt),
            r == change(old(self)@.state, final(self)@.state),
    {
        self.remote_discr = pkt.my_discr;
        self.remote_state = pkt.state;
        self.remote_min_rx_us = pkt.required_min_rx;
        self.remote_desired_tx_us = pkt.desired_min_tx;
        self.remote_detect_mult = pkt.detect_mult;
        if pkt.poll {
            self.send_final = true;
        }
        if self.state == State::AdminDown {
            return None;
        }
        let next = if pkt.state == State::AdminDown {
            if self.state != State::Down {
                self.local_diag = Diag::NeighborSignaledDown;
                Some(State::Down)
            } else {
                None
            }
        } else {
            match self.state {
                State::Down => match pkt.state {
                    State::Down => Some(State::Init),
                    State::Init => Some(State::Up),
                    _ => None,
                },
                State::Init => match pkt.state {
                    State::Init => Some(State::Up),
                    State::Up => Some(State::Up),
                    _ => None,
                },
                State::Up => match pkt.state {
                    State::Down => {
                        self.local_diag = Diag::NeighborSignaledDown;
                        Some(State::Down)
                    },
                    _ => None,
                },
                State::AdminDown => None,
            }
        };
        match next {
            Some(to) => {
                let from = self.state;
                if to == State::Up {
                    self.local_diag = Diag::NoDiagnostic;
                }
                if to == State::Down {
                    self.remote_discr = 0;
                }
                self.state = to;
                Some(Transition { from, to })
            },
            None => None,
        }
    }

    /// The Detection Time passed without a packet: a session that was Up or Init
    /// fails. Returns the transition where the state changed.
    pub fn on_detect_timeout(&mut self) -> (r: Option<Transition>)
        ensures
            final(self)@ == old(self)@.after_timeout(),
            r == change(old(self)@.state, final(self)@.state),
    {
        if self.state == State::Up || self.state == State::Init {
            let from = self.state;
            self.local_diag = Diag::ControlDetectionTimeExpired;
            self.state = State::Down;
            self.remote_state = State::Down;
            self.remote_discr = 0;
            Some(Transition { from, to: State::Down })
        } else {
            None
        }
    }

    /// The next packet to send. A Final that a Poll obliged us to is paid by it.
    pub fn build_control(&mut self) -> (r: ControlPacket)
        ensures
            r == old(self)@.control(),
            final(self)@ == (SessionView { send_final: false, ..old(self)@ }),
    {
        let final_ = self.send_final;
        self.send_final = false;
        ControlPacket {
            diag: self.local_diag,
            state: self.state,
            poll: false,
            final_,
            cpi: false,
            demand: false,
            detect_mult: self.cfg.detect_mult,
            my_discr: self.local_discr,
            your_discr: self.remote_discr,
            desired_min_tx: self.effective_desired_tx_us(),
            required_min_rx: self.cfg.required_min_rx_us,
            required_min_echo_rx: 0,
            auth_present: false,
        }
    }

    fn effective_desired_tx_us(&self) -> (r: u32)
        ensures
            r == self@.effective_tx(),
    {
        if self.state == State::Up || self.cfg.desired_min_tx_us >= SLOW_TX_FLOOR_US {
            self.cfg.desired_min_tx_us
        } else {
            SLOW_TX_FLOOR_US
        }
    }

    /// How long (microseconds) to wait before the next packet: the greater of our
    /// effective Desired Min TX and the neighbour's Required Min RX, cut to between 75
    /// and 90 per cent of it by a share that the discriminator fixes, so that sessions
    /// do not send in lockstep (RFC 5880 §6.8.7).
    pub fn transmit_interval_us(&self) -> (r: u64)
        ensures
            r == greater(self@.effective_tx(), self@.remote_min_rx_us as int) * (75
                + self@.local_discr % 16) / 100,
            r == self@.transmit_interval(),
    {
        let ours: u64 = self.effective_desired_tx_us() as u64;
        let theirs: u64 = self.remote_min_rx_us as u64;
        let base: u64 = if ours >= theirs {
            ours
        } else {
            theirs
        };
        let pct: u64 = 75 + (self.local_discr % 16) as u64;
        assert(0 <= base * pct <= 4294967295 * 90) by (nonlinear_arith)
            requires
                base <= 4294967295,
                pct <= 90,
        ;
        base * pct / 100
    }

    /// How long (microseconds) the neighbour may be silent before the session fails
    /// (RFC 5880 §6.8.4): the neighbour's Detect Mult times the greater of our Required
    /// Min RX and its Desired Min TX.
    pub fn detection_time_us(&self) -> (r: u64)
        ensures
            r == self@.remote_detect_mult * greater(
                self@.cfg.required_min_rx_us as int,
                self@.remote_desired_tx_us as int,
            ),
            r == self@.detection_time(),
    {
        let ours: u64 = self.cfg.required_min_rx_us as u64;
        let theirs: u64 = self.remote_desired_tx_us as u64;
        let interval: u64 = if ours >= theirs {
            ours
        } else {
            theirs
        };
        let mult: u64 = self.remote_detect_mult as u64;
        assert(0 <= mult * interval <= 255 * 4294967295) by (nonlinear_arith)
            requires
                interval <= 4294967295,
                mult <= 255,
        ;
        mult * interval
    }
}

/// Two sessions that start Down and exchange what they build come Up together: the
/// first packet moves the peer to Init, its answer brings us Up, and our next packet
/// brings the peer Up.
pub proof fn lemma_three_way_handshake(a: SessionView, b: SessionView)
    requires
        a.state == State::Down,
        b.state == State::Down,
    ensures
        ({
            let b1 = b.after_packet(a.control());
            let a1 = a.after_packet(b1.control());
            let b2 = b1.after_packet(a1.control());
            &&& b1.state == State::Init
            &&& a1.state == State::Up
            &&& b2.state == State::Up
            &&& a1.remote_discr == b.local_discr
            &&& b2.remote_discr == a.local_discr
            &&& a1.local_diag == Diag::NoDiagnostic
            &&& b2.local_diag == Diag::NoDiagnostic
        }),
{
}

/// An administratively down session never moves, whatever it hears and however long
/// it hears nothing.
pub proof fn lemma_admin_down_is_inert(s: SessionView, pkt: ControlPacket)
    requires
        s.state == State::AdminDown,
    ensures
        s.after_packet(pkt).state == State::AdminDown,
        s.after_packet(pkt).local_diag == s.local_diag,
        s.after_timeout() == s,
{
}

/// A session that is not Up or Init knows no failure: only a session that heard its
/// neighbour can lose it. One that loses it forgets the neighbour's discriminator and
/// advertises at least one second.
pub proof fn lemma_losing_the_neighbour(s: SessionView)
    ensures
        (s.after_timeout() != s) ==> s.state == State::Up || s.state == State::Init,
        s.state == State::Up ==> s.after_timeout().remote_discr == 0
            && s.after_timeout().effective_tx() >= 1_000_000,
        s.after_timeout().after_timeout() == s.after_timeout(),
{
}

/// What a session sends is what its peer accepts, as long as the session's own
/// discriminator and Detect Mult are not zero and it knows the neighbour's
/// discriminator whenever it is Init or Up.
pub proof fn lemma_control_is_sendable(s: SessionView)
    requires
        s.local_discr != 0,
        s.cfg.detect_mult != 0,
        s.state == State::Init || s.state == State::Up ==> s.remote_discr != 0,
    ensures
        s.control().sendable(),
{
}

/// Being Init or Up only with a known neighbour is kept by every packet that names
/// its sender, by a timeout and by sending.
pub proof fn lemma_known_neighbour_is_kept(s: SessionView, pkt: ControlPacket)
    requires
        s.state == State::Init || s.state == State::Up ==> s.remote_discr != 0,
        pkt.my_discr != 0,
    ensures
        ({
            let t = s.after_packet(pkt);
            t.state == State::Init || t.state == State::Up ==> t.remote_discr != 0
        }),
        ({
            let t = s.after_timeout();
            t.state == State::Init || t.state == State::Up ==> t.remote_discr != 0
        }),
{
}

/// A Poll is answered by a Final, once: the packet built next carries it, the one
/// after that does not.
pub proof fn lemma_poll_is_answered_once(s: SessionView, pkt: ControlPacket)
    requires
        pkt.poll,
    ensures
        ({
            let t = s.after_packet(pkt);
            &&& t.control().final_
            &&& !(SessionView { send_final: false, ..t }).control().final_
        }),
{
}

/// When a session moves on a packet, and where to. Hearing Down it comes from Down to
/// Init; hearing that it was heard it comes Up, from Down by Init and from Init by Init or
/// Up; it goes Down from Init or Up on AdminDown, and from Up on Down. So a session that is
/// Up stays Up exactly where the neighbour reports Init or Up.
pub proof fn lemma_moves_on_a_packet(s: SessionView, pkt: ControlPacket)
    ensures
        ({
            let t = s.after_packet(pkt);
            &&& t.state is Init && !(s.state is Init) <==> s.state is Down && pkt.state is Down
            &&& t.state is Up && !(s.state is Up) <==> (s.state is Down && pkt.state is Init) || (
            s.state is Init && (pkt.state is Init || pkt.state is Up))
            &&& t.state is Down && !(s.state is Down) <==> (s.state is Init
                && pkt.state is AdminDown) || (s.state is Up && (pkt.state is Down
                || pkt.state is AdminDown))
            &&& t.state is AdminDown <==> s.state is AdminDown
            &&& s.state is Up ==> (t.state is Up <==> pkt.state is Init || pkt.state is Up)
        }),
{
}

/// A session that goes Down on a packet says that the neighbour signalled it and forgets
/// the neighbour's discriminator; one that comes Up has nothing to say; in all other cases
/// the diagnostic stays and the discriminator is the sender's.
pub proof fn lemma_why_it_went_down(s: SessionView, pkt: ControlPacket)
    ensures
        ({
            let t = s.after_packet(pkt);
            let falls = (s.state is Init && pkt.state is AdminDown) || (s.state is Up && (
            pkt.state is Down || pkt.state is AdminDown));
            let rises = (s.state is Down && pkt.state is Init) || (s.state is Init && (
            pkt.state is Init || pkt.state is Up));
            &&& falls ==> t.state is Down && t.local_diag is NeighborSignaledDown && t.remote_discr
                == 0
            &&& rises ==> t.state is Up && t.local_diag is NoDiagnostic
            &&& !falls && !rises ==> t.local_diag == s.local_diag
            &&& !falls ==> t.remote_discr == pkt.my_discr
            &&& change(s.state, t.state) is Some <==> falls || rises || (s.state is Down
                && pkt.state is Down)
            &&& change(s.state, t.state) matches Some(c) ==> c.from == s.state && c.to == t.state
        }),
{
}

/// Every packet tells what the neighbour wants, in whatever state the session is, and
/// leaves what the session itself was given.
pub proof fn lemma_a_packet_teaches(s: SessionView, pkt: ControlPacket)
    ensures
        ({
            let t = s.after_packet(pkt);
            &&& t.remote_state == pkt.state
            &&& t.remote_min_rx_us == pkt.required_min_rx
            &&& t.remote_desired_tx_us == pkt.desired_min_tx
            &&& t.remote_detect_mult == pkt.detect_mult
            &&& t.send_final == (s.send_final || pkt.poll)
            &&& t.cfg == s.cfg
            &&& t.local_discr == s.local_discr
        }),
{
}

/// Silence takes a session that is Init or Up, and no other, Down; it says that the
/// Detection Time passed and forgets the neighbour's state and discriminator.
pub proof fn lemma_silence(s: SessionView)
    ensures
        ({
            let t = s.after_timeout();
            &&& s.state is Init || s.state is Up ==> t.state is Down
                && t.local_diag is ControlDetectionTimeExpired && t.remote_discr == 0
                && t.remote_state is Down && change(s.state, t.state) == Some(
                (Transition { from: s.state, to: State::Down }),
            )
            &&& s.state is Down || s.state is AdminDown ==> t == s && change(s.state, t.state)
                is None
            &&& t.cfg == s.cfg && t.local_discr == s.local_discr && t.send_final == s.send_final
            &&& t.remote_detect_mult == s.remote_detect_mult
            &&& t.remote_min_rx_us == s.remote_min_rx_us
            &&& t.remote_desired_tx_us == s.remote_desired_tx_us
        }),
{
}

/// When one end of a session that is Up fails, the other learns of it from the next packet
/// and goes Down too, and the two can come Up again.
pub proof fn lemma_both_ends_fall(a: SessionView, b: SessionView)
    requires
        a.state is Up,
        b.state is Up,
    ensures
        ({
            let a1 = a.after_timeout();
            let b1 = b.after_packet(a1.control());
            let a2 = a1.after_packet(b1.control());
            let b2 = b1.after_packet(a2.control());
            let a3 = a2.after_packet(b2.control());
            &&& a1.state is Down
            &&& b1.state is Down
            &&& b1.local_diag is NeighborSignaledDown
            &&& a2.state is Init
            &&& b2.state is Up
            &&& a3.state is Up
        }),
{
}

/// What a session sends tells its state, its diagnostic, both discriminators, what it was
/// configured with and whether it answers a Poll; it never polls and has no echo function.
/// It wants to send as fast as configured while it is Up, and at most once a second while
/// it is not.
pub proof fn lemma_what_is_sent(s: SessionView)
    ensures
        ({
            let p = s.control();
            &&& p.state == s.state
            &&& p.diag == s.local_diag
            &&& p.my_discr == s.local_discr
            &&& p.your_discr == s.remote_discr
            &&& p.detect_mult == s.cfg.detect_mult
            &&& p.required_min_rx == s.cfg.required_min_rx_us
            &&& p.required_min_echo_rx == 0
            &&& p.final_ == s.send_final
            &&& !p.poll && !p.cpi && !p.demand && !p.auth_present
            &&& s.state is Up ==> p.desired_min_tx == s.cfg.desired_min_tx_us
            &&& !(s.state is Up) ==> p.desired_min_tx >= 1_000_000 && p.desired_min_tx
                >= s.cfg.desired_min_tx_us && (p.desired_min_tx == 1_000_000 || p.desired_min_tx
                == s.cfg.desired_min_tx_us)
        }),
{
}

/// A session sends no faster than the neighbour can receive nor than it wants itself, but
/// for a cut of ten to twenty-five per cent; the cut depends on the discriminator alone.
pub proof fn lemma_transmit_interval(s: SessionView)
    ensures
        ({
            let want = s.control().desired_min_tx as int;
            let can = s.remote_min_rx_us as int;
            let t = s.transmit_interval();
            &&& 100 * t + 100 > 75 * want && 100 * t + 100 > 75 * can
            &&& 100 * t <= 90 * want || 100 * t <= 90 * can
            &&& want >= can ==> t == want * (75 + s.local_discr % 16) / 100
            &&& want <= can ==> t == can * (75 + s.local_discr % 16) / 100
        }),
{
    let want = s.effective_tx();
    let can = s.remote_min_rx_us as int;
    let g = greater(want, can);
    let pct = 75 + s.local_discr % 16;
    assert(75 * g <= g * pct <= 90 * g) by (nonlinear_arith)
        requires
            g >= 0,
            75 <= pct <= 90,
    ;
    let x = g * pct;
    assert(100 * (x / 100) <= x < 100 * (x / 100) + 100);
}

/// The neighbour is given up after its own Detect Mult of intervals, each the slower of
/// what it wants to send and what the session can receive: a longer one of either, or a
/// higher multiplier, never shortens the wait.
pub proof fn lemma_detection_time(s: SessionView)
    ensures
        ({
            let mult = s.remote_detect_mult as int;
            let ours = s.cfg.required_min_rx_us as int;
            let theirs = s.remote_desired_tx_us as int;
            &&& s.detection_time() >= mult * ours
            &&& s.detection_time() >= mult * theirs
            &&& s.detection_time() == mult * ours || s.detection_time() == mult * theirs
        }),
{
    let mult = s.remote_detect_mult as int;
    let ours = s.cfg.required_min_rx_us as int;
    let theirs = s.remote_desired_tx_us as int;
    if ours >= theirs {
        assert(mult * ours >= mult * theirs) by (nonlinear_arith)
            requires
                mult >= 0,
                ours >= theirs,
        ;
    } else {
        assert(mult * theirs >= mult * ours) by (nonlinear_arith)
            requires
                mult >= 0,
                ours < theirs,
        ;
    }
}

/// A new session is Down, knows no neighbour, takes the least for its parameters, and owes
/// nothing.
pub proof fn lemma_a_new_session(local_discr: u32, cfg: SessionConfig)
    ensures
        ({
            let s = SessionView::fresh(local_discr, cfg);
            &&& s.state is Down && s.remote_state is Down
            &&& s.local_diag is NoDiagnostic
            &&& s.remote_discr == 0
            &&& s.local_discr == local_discr
            &&& s.cfg == cfg
            &&& !s.send_final
            &&& s.remote_min_rx_us == 1 && s.remote_desired_tx_us == 1 && s.remote_detect_mult == 1
        }),
{
}

} // verus!
