use sugar_wifi_conf::connections::ConnectionBook;
use sugar_wifi_conf::worker::{Worker, WorkerAction, WorkerEvent};

fn s(x: &str) -> String {
    x.to_string()
}

#[test]
fn worker_run_serves_ports_in_order() {
    let mut w = Worker::new();
    assert_eq!(w.step(&WorkerEvent::ConnectAsked { id: s("a") }), WorkerAction::Ignore);
    assert_eq!(w.step(&WorkerEvent::Found { id: s("a") }), WorkerAction::Ignore);
    assert_eq!(w.step(&WorkerEvent::Found { id: s("b") }), WorkerAction::Ignore);
    assert_eq!(w.step(&WorkerEvent::TunnelReady { id: s("a") }), WorkerAction::Ignore);
    assert_eq!(w.step(&WorkerEvent::ConnectAsked { id: s("a") }), WorkerAction::StartTunnel);
    assert!(w.can_serve(&s("a")));
    assert_eq!(w.step(&WorkerEvent::TunnelReady { id: s("a") }), WorkerAction::Serve { port: 2222 });
    assert_eq!(w.step(&WorkerEvent::ConnectAsked { id: s("b") }), WorkerAction::StartTunnel);
    assert_eq!(w.step(&WorkerEvent::TunnelFailed { id: s("b") }), WorkerAction::ReportFailure);
    assert_eq!(w.step(&WorkerEvent::TunnelReady { id: s("b") }), WorkerAction::Ignore);
    assert_eq!(w.step(&WorkerEvent::DisconnectAsked { id: s("a") }), WorkerAction::TearDown);
    assert_eq!(w.step(&WorkerEvent::DisconnectAsked { id: s("a") }), WorkerAction::Ignore);
    assert_eq!(w.step(&WorkerEvent::DisconnectAsked { id: s("b") }), WorkerAction::Ignore);
    assert_eq!(w.step(&WorkerEvent::ConnectAsked { id: s("b") }), WorkerAction::StartTunnel);
    assert_eq!(w.step(&WorkerEvent::TunnelReady { id: s("b") }), WorkerAction::Serve { port: 2223 });
    assert_eq!(w.step(&WorkerEvent::ConnectAsked { id: s("a") }), WorkerAction::StartTunnel);
    assert_eq!(w.step(&WorkerEvent::TunnelReady { id: s("a") }), WorkerAction::Serve { port: 2224 });
    assert_eq!(w.step(&WorkerEvent::QuitAsked), WorkerAction::Stop);
    assert_eq!(w.step(&WorkerEvent::DisconnectAsked { id: s("b") }), WorkerAction::Ignore);
}

#[test]
fn book_run_hands_out_ports_in_order() {
    let mut b = ConnectionBook::new();
    let mut ports = Vec::new();
    ports.push(b.open("a"));
    ports.push(b.open("b"));
    assert_eq!(b.close("a"), Some(2222));
    ports.push(b.open("a"));
    b.close_all();
    ports.push(b.open("c"));
    ports.push(b.open("c"));
    assert_eq!(ports, vec![2222, 2223, 2224, 2225, 2226]);
    assert_eq!(b.close("c"), Some(2226));
    assert_eq!(b.close("c"), None);
}
