use wren::bgp::fsm::{BgpFsm, CODE_CEASE, CODE_HOLD_TIMER_EXPIRED, CODE_OPEN_MESSAGE};
use wren::bgp::fsm::Action::{
    ConnectTcp, DropTcp, SendOpen, SendKeepalive, SendNotification, StartConnectRetryTimer,
    StopConnectRetryTimer, StartHoldTimer, RestartHoldTimer, StartKeepaliveTimer,
    SessionEstablished, SessionDown,
};
use wren::bgp::fsm::Event::{
    ManualStart, ManualStop, ConnectRetryTimerExpires, HoldTimerExpires, KeepaliveTimerExpires,
    TcpConnected, TcpConnectionFails, OpenReceived, KeepAliveReceived, UpdateReceived,
    NotificationReceived, OpenError,
};
use wren::bgp::fsm::State::{
    Idle, Connect, Active, OpenSent, OpenConfirm, Established,
};

#[test]
fn full_session_bringup() {
    let mut fsm = BgpFsm::new();
    assert_eq!(fsm.handle(ManualStart), vec![StartConnectRetryTimer, ConnectTcp]);
    assert_eq!(fsm.state(), Connect);
    assert_eq!(
        fsm.handle(TcpConnected),
        vec![StopConnectRetryTimer, SendOpen, StartHoldTimer]
    );
    assert_eq!(fsm.state(), OpenSent);
    assert_eq!(
        fsm.handle(OpenReceived),
        vec![SendKeepalive, StartKeepaliveTimer, RestartHoldTimer]
    );
    assert_eq!(fsm.state(), OpenConfirm);
    assert_eq!(fsm.handle(KeepAliveReceived), vec![RestartHoldTimer, SessionEstablished]);
    assert_eq!(fsm.state(), Established);
    assert!(fsm.is_established());
}

#[test]
fn keepalive_and_update_keep_the_session() {
    let mut fsm = BgpFsm { state: Established };
    assert_eq!(fsm.handle(KeepAliveReceived), vec![RestartHoldTimer]);
    assert_eq!(fsm.handle(UpdateReceived), vec![RestartHoldTimer]);
    assert_eq!(fsm.handle(KeepaliveTimerExpires), vec![SendKeepalive]);
    assert_eq!(fsm.state(), Established);
}

#[test]
fn hold_timer_expiry_tears_down_with_notification() {
    let mut fsm = BgpFsm { state: Established };
    let acts = fsm.handle(HoldTimerExpires);
    assert_eq!(
        acts,
        vec![
            SendNotification { code: CODE_HOLD_TIMER_EXPIRED, subcode: 0 },
            DropTcp,
            SessionDown,
        ]
    );
    assert_eq!(fsm.state(), Idle);
}

#[test]
fn manual_stop_sends_cease_and_flushes_when_established() {
    let mut fsm = BgpFsm { state: Established };
    let acts = fsm.handle(ManualStop);
    assert_eq!(
        acts,
        vec![SendNotification { code: CODE_CEASE, subcode: 0 }, DropTcp, SessionDown]
    );
    assert_eq!(fsm.state(), Idle);

    let mut fsm = BgpFsm { state: OpenSent };
    let acts = fsm.handle(ManualStop);
    assert_eq!(acts, vec![SendNotification { code: CODE_CEASE, subcode: 0 }, DropTcp]);
}

#[test]
fn notification_received_drops_and_flushes() {
    let mut fsm = BgpFsm { state: Established };
    assert_eq!(fsm.handle(NotificationReceived), vec![DropTcp, SessionDown]);
    assert_eq!(fsm.state(), Idle);
}

#[test]
fn connect_failure_goes_active_then_retries() {
    let mut fsm = BgpFsm::new();
    fsm.handle(ManualStart);
    assert_eq!(fsm.handle(TcpConnectionFails), vec![StartConnectRetryTimer]);
    assert_eq!(fsm.state(), Active);
    assert_eq!(
        fsm.handle(ConnectRetryTimerExpires),
        vec![StartConnectRetryTimer, ConnectTcp]
    );
    assert_eq!(fsm.state(), Connect);
}

#[test]
fn bad_open_in_opensent_notifies_and_idles() {
    let mut fsm = BgpFsm { state: OpenSent };
    assert_eq!(
        fsm.handle(OpenError),
        vec![SendNotification { code: CODE_OPEN_MESSAGE, subcode: 0 }, DropTcp]
    );
    assert_eq!(fsm.state(), Idle);
}
