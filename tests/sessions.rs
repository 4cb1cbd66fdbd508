use fdpi::counter::LiveCounter;
use fdpi::engine::{FragmentPlan, SocketOp};
use fdpi::session::{close_notice, established_reply, is_loopback, Action, Event, Phase, Session};

fn plan() -> FragmentPlan {
    FragmentPlan { body: vec![4, 2], sni: vec![], fake_ttl: 2, esni: false }
}

#[test]
fn connect_to_a_public_host() {
    let p = plan();
    let mut s = Session::new();
    let a = s.step(Event::Received(b"CONNECT example.com:443 HTTP/1.1\r\n\r\n".to_vec()), &p);
    assert!(matches!(a, Action::Resolve(ref d) if d == "example.com"));
    let a = s.step(Event::Resolved(Some([93, 184, 216, 34])), &p);
    assert!(matches!(a, Action::Connect([93, 184, 216, 34], 443)));
    let a = s.step(Event::Connected, &p);
    match a {
        Action::Reply(r) => assert_eq!(r, b"HTTP/1.1 200 Connection Established\r\n\r\n".to_vec()),
        _ => panic!("expected the success reply"),
    }
    let hello: Vec<u8> = (0u8..16).collect();
    let a = s.step(Event::HelloRead(hello.clone(), 64), &p);
    match a {
        Action::Transmit(ops) => {
            let sent: Vec<u8> = ops
                .iter()
                .filter_map(|o| match o {
                    SocketOp::Send(d) => Some(d.clone()),
                    _ => None,
                })
                .collect::<Vec<_>>()
                .concat();
            assert_eq!(sent, hello);
        }
        _ => panic!("expected the hello steps"),
    }
    assert_eq!(s.phase, Phase::Relaying);
    assert!(matches!(s.step(Event::RelayEnded, &p), Action::Close));
    assert_eq!(s.phase, Phase::Closed);
}

#[test]
fn loopback_target_is_refused_before_connect() {
    let p = plan();
    let mut s = Session::new();
    let a = s.step(Event::Received(b"CONNECT localhost:9000 HTTP/1.1\r\n\r\n".to_vec()), &p);
    assert!(matches!(a, Action::Resolve(ref d) if d == "localhost"));
    assert_eq!(s.port, 9000);
    let a = s.step(Event::Resolved(Some([127, 0, 0, 1])), &p);
    assert!(matches!(a, Action::Close));
    assert_eq!(s.phase, Phase::Failed);
    assert!(matches!(s.step(Event::Connected, &p), Action::Close));
    assert_eq!(s.phase, Phase::Failed);
}

#[test]
fn empty_first_read_closes_cleanly() {
    let mut s = Session::new();
    assert!(matches!(s.step(Event::Received(vec![]), &plan()), Action::Close));
    assert_eq!(s.phase, Phase::Closed);
}

#[test]
fn bad_request_or_no_address_fails() {
    let p = plan();
    let mut s = Session::new();
    assert!(matches!(s.step(Event::Received(b"GET / HTTP/1.1\r\n".to_vec()), &p), Action::Close));
    assert_eq!(s.phase, Phase::Failed);
    let mut s = Session::new();
    s.step(Event::Received(b"CONNECT example.com HTTP/1.1\r\n".to_vec()), &p);
    assert!(matches!(s.step(Event::Resolved(None), &p), Action::Close));
    assert_eq!(s.phase, Phase::Failed);
}

#[test]
fn io_error_and_unexpected_event_fail() {
    let p = plan();
    let mut s = Session::new();
    s.step(Event::Received(b"CONNECT example.com HTTP/1.1\r\n".to_vec()), &p);
    assert!(matches!(s.step(Event::IoError, &p), Action::Close));
    assert_eq!(s.phase, Phase::Failed);
    let mut s = Session::new();
    assert!(matches!(s.step(Event::Connected, &p), Action::Close));
    assert_eq!(s.phase, Phase::Failed);
}

#[test]
fn loopback_range() {
    assert!(is_loopback([127, 0, 0, 1]));
    assert!(is_loopback([127, 255, 1, 2]));
    assert!(!is_loopback([128, 0, 0, 1]));
    assert!(!is_loopback([10, 0, 0, 1]));
}

#[test]
fn fixed_replies() {
    assert_eq!(close_notice(), b"HTTP/1.1 200 OK\r\nConnection: close\r\n\r\n".to_vec());
    assert_eq!(established_reply(b"HTTP/1.0"), b"HTTP/1.0 200 Connection Established\r\n\r\n".to_vec());
}

#[test]
fn counter_returns_to_zero() {
    let mut c = LiveCounter::new();
    let a = c.on_accept();
    let b = c.on_accept();
    assert_eq!((a, b, c.live), (0, 1, 2));
    c.on_finish(b);
    let d = c.on_accept();
    assert_eq!(d, 2);
    c.on_finish(a);
    assert_eq!(c.live, 1);
    c.on_finish(d);
    assert_eq!(c.live, 0);
    assert_eq!(c.next, 3);
}
