use wren::bfd::packet::{ControlPacket, Diag, State};
use wren::bfd::session::{Session, SessionConfig, Transition};

fn cfg() -> SessionConfig {
    SessionConfig { desired_min_tx_us: 300_000, required_min_rx_us: 300_000, detect_mult: 3 }
}

fn exchange(rounds: usize) -> (Session, Session) {
    let mut a = Session::new(1, cfg());
    let mut b = Session::new(2, cfg());
    for _ in 0..rounds {
        let pa = a.build_control();
        b.on_packet(&pa);
        let pb = b.build_control();
        a.on_packet(&pb);
    }
    (a, b)
}

#[test]
fn three_way_handshake_reaches_up() {
    let (a, b) = exchange(3);
    assert_eq!(a.state(), State::Up);
    assert_eq!(b.state(), State::Up);
    assert_eq!(a.remote_discr(), 2);
    assert_eq!(b.remote_discr(), 1);
}

#[test]
fn detect_timeout_from_up_goes_down_with_the_right_diag() {
    let (mut a, _b) = exchange(3);
    assert_eq!(a.state(), State::Up);
    let t = a.on_detect_timeout().expect("transition");
    assert_eq!(t, Transition { from: State::Up, to: State::Down });
    assert_eq!(a.state(), State::Down);
    assert_eq!(a.remote_discr(), 0);
    let p = a.build_control();
    assert_eq!(p.diag, Diag::ControlDetectionTimeExpired);
    assert_eq!(p.state, State::Down);
    assert!(a.on_detect_timeout().is_none());
}

#[test]
fn neighbor_signaling_down_tears_an_up_session_down() {
    let (mut a, _b) = exchange(3);
    assert_eq!(a.state(), State::Up);
    let down = ControlPacket {
        diag: Diag::AdministrativelyDown,
        state: State::Down,
        poll: false,
        final_: false,
        cpi: false,
        demand: false,
        detect_mult: 3,
        my_discr: 2,
        your_discr: 1,
        desired_min_tx: 300_000,
        required_min_rx: 300_000,
        required_min_echo_rx: 0,
        auth_present: false,
    };
    let t = a.on_packet(&down).expect("transition");
    assert_eq!(t, Transition { from: State::Up, to: State::Down });
    assert_eq!(a.build_control().diag, Diag::NeighborSignaledDown);
}

#[test]
fn transmits_slowly_until_up_then_at_the_configured_rate() {
    let mut a = Session::new(3, cfg());
    assert!(a.transmit_interval_us() >= 700_000);
    let mut b = Session::new(4, cfg());
    for _ in 0..3 {
        let pa = a.build_control();
        b.on_packet(&pa);
        let pb = b.build_control();
        a.on_packet(&pb);
    }
    assert_eq!(a.state(), State::Up);
    assert!(a.transmit_interval_us() <= 300_000);
}

#[test]
fn answers_a_poll_with_the_final_bit_once() {
    let mut a = Session::new(5, cfg());
    let mut poll = a.build_control();
    poll.poll = true;
    poll.my_discr = 9;
    poll.state = State::Down;
    a.on_packet(&poll);
    assert!(a.build_control().final_, "first packet after a poll sets Final");
    assert!(!a.build_control().final_, "and only that one packet");
}

#[test]
fn detection_time_follows_the_negotiated_receive_interval() {
    let (a, _b) = exchange(3);
    assert_eq!(a.detection_time_us(), 3 * 300_000);
}
