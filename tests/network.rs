use ledger_node::network::{Admission, ConnectionManager};

fn s(x: &str) -> String {
    x.to_string()
}

#[test]
fn first_connection_to_a_listener_wins() {
    let mut m = ConnectionManager::new(8000);
    m.add_client(s("127.0.0.1:50001"));
    m.add_client(s("127.0.0.1:50002"));
    match m.on_connected(&s("127.0.0.1:50001"), &s("127.0.0.1:8001")) {
        Admission::Accepted(forward) => assert!(forward.is_empty()),
        Admission::Duplicate => panic!("first connection refused"),
    }
    assert!(matches!(m.on_connected(&s("127.0.0.1:50002"), &s("127.0.0.1:8001")), Admission::Duplicate));
    assert_eq!(m.connections.len(), 1);
    assert_eq!(m.connections[0].public_address, Some(s("127.0.0.1:8001")));
    assert_eq!(m.open_connections, vec![s("127.0.0.1:8001")]);
    assert_eq!(m.send(), vec![s("127.0.0.1:50001")]);
}

#[test]
fn new_nodes_are_gossiped_to_all_but_the_origin() {
    let mut m = ConnectionManager::new(8000);
    m.add_client(s("b"));
    m.add_client(s("c"));
    m.on_connected(&s("b"), &s("127.0.0.1:8001"));
    m.on_connected(&s("c"), &s("127.0.0.1:8002"));
    let forward = m.register_node(&s("127.0.0.1:8003"), Some(&s("b")));
    assert_eq!(forward, vec![s("c")]);
    let again = m.register_node(&s("127.0.0.1:8003"), Some(&s("c")));
    assert!(again.is_empty());
    let dial = m.nodes_to_dial(&s("127.0.0.1:8000"));
    assert_eq!(dial, vec![s("127.0.0.1:8003")]);
    m.disconnect_from(&s("b"));
    let dial = m.nodes_to_dial(&s("127.0.0.1:8000"));
    assert_eq!(dial.len(), 2);
    assert!(dial.contains(&s("127.0.0.1:8001")));
}

#[test]
fn three_nodes_converge_and_ping_once() {
    // A on 8000; B and C register A and dial it.
    let mut a = ConnectionManager::new(8000);
    let mut b = ConnectionManager::new(8001);
    let mut c = ConnectionManager::new(8002);
    b.register_node(&s("127.0.0.1:8000"), None);
    c.register_node(&s("127.0.0.1:8000"), None);
    assert_eq!(b.nodes_to_dial(&s("127.0.0.1:8001")), vec![s("127.0.0.1:8000")]);
    // B dials A.
    b.add_client(s("127.0.0.1:8000"));
    a.add_client(s("127.0.0.1:60001"));
    a.on_connected(&s("127.0.0.1:60001"), &s("127.0.0.1:8001"));
    b.on_connected(&s("127.0.0.1:8000"), &s("127.0.0.1:8000"));
    // C dials A; A gossips C to B.
    c.add_client(s("127.0.0.1:8000"));
    a.add_client(s("127.0.0.1:60002"));
    let fwd = match a.on_connected(&s("127.0.0.1:60002"), &s("127.0.0.1:8002")) {
        Admission::Accepted(f) => f,
        Admission::Duplicate => panic!(),
    };
    assert_eq!(fwd, vec![s("127.0.0.1:60001")]);
    c.on_connected(&s("127.0.0.1:8000"), &s("127.0.0.1:8000"));
    b.register_node(&s("127.0.0.1:8002"), Some(&s("127.0.0.1:8000")));
    assert_eq!(b.nodes_to_dial(&s("127.0.0.1:8001")), vec![s("127.0.0.1:8002")]);
    // B dials C.
    b.add_client(s("127.0.0.1:8002"));
    c.add_client(s("127.0.0.1:60003"));
    c.on_connected(&s("127.0.0.1:60003"), &s("127.0.0.1:8001"));
    b.on_connected(&s("127.0.0.1:8002"), &s("127.0.0.1:8002"));
    // Every pair is connected; a ping from each reaches the two others once.
    for m in [&a, &b, &c] {
        let targets = m.send();
        assert_eq!(targets.len(), 2);
        assert_ne!(targets[0], targets[1]);
    }
}
