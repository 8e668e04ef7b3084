use glbaby::glbaby::plugsocket::{Operation, Plug, Socket};

fn value(p: &Plug) -> i32 {
    p.socket().unwrap().clone().get(false)
}

#[test]
fn plugsocket_get_clamps_sum() {
    let mut s = Socket::new(0, 100, 1);
    s.set_latched(60);
    s.add_volatile(30);
    assert_eq!(s.get(false), 90);
    s.add_volatile(30);
    assert_eq!(s.get(true), 100);
    assert_eq!(s.get(false), 60);
    s.add_volatile(-70);
    assert_eq!(s.get(false), 0);
    s.clear();
    assert_eq!(s.get(false), 60);
}

#[test]
fn plug_without_socket_is_inactive() {
    let mut p = Plug::new(None, Operation::SETLATCH, 0, 5);
    assert!(!p.isActive());
    p.write();
    assert!(p.socket().is_none());
}

#[test]
fn plug_latches_its_value() {
    let mut p = Plug::new(Some(Socket::new(0, 100, 1)), Operation::SETLATCH, 3, 42);
    assert!(p.isActive());
    p.write();
    assert_eq!(value(&p), 42);
    p.set(7);
    p.write();
    assert_eq!(value(&p), 7);
}

#[test]
fn plug_adds_to_volatile() {
    let mut p = Plug::new(Some(Socket::new(0, 100, 1)), Operation::ADDVOLATILE, 0, 15);
    p.write();
    p.write();
    assert_eq!(value(&p), 30);
    let mut s = p.socket().unwrap().clone();
    assert_eq!(s.get(true), 30);
    assert_eq!(s.get(false), 0);
}
