use glbaby::glbaby::{Action, DrawFlag, GLMain, GlobalGL, Node, Socket, SocketOperation};

fn clear(r: i32, g: i32, b: i32, a: i32) -> Action {
    Action::ClearColor { r, g, b, a }
}

fn graph() -> GLMain<GlobalGL> {
    let mut m: GLMain<GlobalGL> = GLMain::new();
    m.add_node(GlobalGL::new());
    m
}

#[test]
fn socket_value_is_clamped() {
    let mut s = Socket::new(0, None, 1000, 0, "s");
    assert_eq!(s.get(false), 0);
    s.set_latched(1500);
    assert_eq!(s.get(false), 1000);
    s.set_latched(-5);
    assert_eq!(s.get(false), 0);
    s.set_latched(500);
    assert_eq!(s.get(true), 500);
    s.set_latched(1000);
    assert_eq!(s.get(false), 1000);
}

#[test]
fn socket_min_wins_when_bounds_cross() {
    let mut s = Socket::new(0, None, 0, 10, "s");
    s.set_latched(5);
    assert_eq!(s.get(false), 10);
    s.set_latched(-100);
    assert_eq!(s.get(false), 10);
    s.set_latched(100);
    assert_eq!(s.get(false), 10);
}

#[test]
fn socket_extreme_values() {
    let mut s = Socket::new(0, None, i32::MAX, i32::MIN, "s");
    s.set_latched(i32::MAX);
    assert_eq!(s.get(false), i32::MAX);
    s.set_latched(i32::MIN);
    assert_eq!(s.get(false), i32::MIN);
}

#[test]
fn socket_toggle_alternates_between_bounds() {
    let mut s = Socket::new(0, None, 1000, 0, "s");
    s.toggle_latched();
    assert_eq!(s.get(false), 1000);
    s.toggle_latched();
    assert_eq!(s.get(false), 0);
    s.set_latched(400);
    s.toggle_latched();
    assert_eq!(s.get(false), 0);
}

#[test]
fn socket_hard_reset_drops_latched() {
    let mut s = Socket::new(0, None, 1000, 0, "s");
    s.set_latched(700);
    s.reset();
    assert_eq!(s.get(false), 700);
    s.hard_reset();
    assert_eq!(s.get(false), 0);
}

#[test]
fn socket_run_adds_missing_flags_once() {
    let mut s = Socket::new(0, None, 1000, 0, "s");
    s.add_flag(DrawFlag::REDRAW);
    s.add_flag(DrawFlag::BROADCAST);
    s.add_flag(DrawFlag::REDRAW);
    s.set_latched(30);
    let mut node = GlobalGL::new();
    let mut flags = vec![DrawFlag::BROADCAST];
    assert_eq!(s.run(&mut node, &mut flags), None);
    assert_eq!(flags, vec![DrawFlag::BROADCAST, DrawFlag::REDRAW]);
    assert_eq!(s.run(&mut node, &mut flags), None);
    assert_eq!(flags, vec![DrawFlag::BROADCAST, DrawFlag::REDRAW]);
}

#[test]
fn socket_run_writes_its_cell() {
    let mut s = Socket::new(2, None, 1000, 0, "s");
    s.set_latched(1200);
    let mut node = GlobalGL::new();
    let mut flags = vec![];
    s.run(&mut node, &mut flags);
    assert_eq!(node.redraw(), vec![clear(0, 0, 1000, 0)]);
    assert!(flags.is_empty());
}

#[test]
fn socket_run_asks_for_its_callback() {
    let mut s = Socket::new(3, Some(5), 10, -10, "s");
    s.set_latched(-40);
    let mut node = GlobalGL::new();
    let mut flags = vec![];
    assert_eq!(s.run(&mut node, &mut flags), Some(Action::Call { handle: 5, value: -10 }));
    assert_eq!(node.redraw(), vec![clear(0, 0, 0, -10)]);
}

#[test]
fn global_gl_sockets() {
    let m = graph();
    assert_eq!(m.socket_count(), 4);
    let names = m.structure();
    assert_eq!(names.len(), 1);
    assert_eq!(names[0], vec!["red".to_string(), "green".to_string(), "blue".to_string(), "alpha".to_string()]);
}

#[test]
fn empty_graph_draws_nothing() {
    let mut m: GLMain<GlobalGL> = GLMain::new();
    assert_eq!(m.draw(), vec![]);
    assert_eq!(m.frame_count(), 1);
    assert!(m.structure().is_empty());
}

#[test]
fn untouched_node_draws_nothing() {
    let mut m = graph();
    assert_eq!(m.draw(), vec![]);
    assert_eq!(m.frame_count(), 1);
}

#[test]
fn latched_value_reaches_the_colour() {
    let mut m = graph();
    m.modify(0, SocketOperation::SETLATCHED, 250);
    assert_eq!(m.draw(), vec![clear(250, 0, 0, 0)]);
}

#[test]
fn latched_value_is_clamped_on_its_way() {
    let mut m = graph();
    m.modify(0, SocketOperation::SETLATCHED, 1500);
    assert_eq!(m.draw(), vec![clear(1000, 0, 0, 0)]);
    m.modify(0, SocketOperation::SETLATCHED, -3);
    assert_eq!(m.draw(), vec![clear(0, 0, 0, 0)]);
}

#[test]
fn blue_and_alpha_drive_the_green_cell() {
    let mut m = graph();
    m.modify(2, SocketOperation::SETLATCHED, 300);
    assert_eq!(m.draw(), vec![clear(0, 300, 0, 0)]);
    let mut m = graph();
    m.modify(3, SocketOperation::SETLATCHED, 40);
    assert_eq!(m.draw(), vec![clear(0, 40, 0, 0)]);
}

#[test]
fn toggle_through_the_graph() {
    let mut m = graph();
    m.modify(0, SocketOperation::LATCHTOGGLE, 0);
    assert_eq!(m.draw(), vec![clear(1000, 0, 0, 0)]);
    m.modify(0, SocketOperation::LATCHTOGGLE, 0);
    assert_eq!(m.draw(), vec![clear(0, 0, 0, 0)]);
}

#[test]
fn unwind_raises_redraw_once() {
    let mut m = graph();
    m.modify(0, SocketOperation::SETLATCHED, 1);
    m.modify(1, SocketOperation::SETLATCHED, 2);
    assert!(m.flags(0).is_empty());
    assert_eq!(m.unwind(), vec![]);
    assert_eq!(m.flags(0), &vec![DrawFlag::REDRAW]);
    assert_eq!(m.unwind(), vec![]);
    assert_eq!(m.flags(0), &vec![DrawFlag::REDRAW]);
    assert_eq!(m.draw(), vec![clear(1, 2, 0, 0)]);
    assert!(m.flags(0).is_empty());
}

#[test]
fn changes_are_kept_between_frames() {
    let mut m = graph();
    m.modify(0, SocketOperation::SETLATCHED, 9);
    assert_eq!(m.draw(), vec![clear(9, 0, 0, 0)]);
    assert_eq!(m.draw(), vec![clear(9, 0, 0, 0)]);
    assert_eq!(m.frame_count(), 2);
}

#[test]
fn each_changed_socket_runs_once_in_order_of_first_change() {
    // Sockets 1 and 2 both drive the green cell: the buffer [2, 1, 2] runs
    // socket 2, then socket 1, so socket 1 has the last word.
    let mut m = graph();
    m.modify(2, SocketOperation::SETLATCHED, 200);
    m.modify(1, SocketOperation::SETLATCHED, 100);
    m.modify(2, SocketOperation::SETLATCHED, 200);
    assert_eq!(m.draw(), vec![clear(0, 100, 0, 0)]);
}

#[test]
fn two_nodes_are_drawn_in_order() {
    let mut m = graph();
    m.add_node(GlobalGL::new());
    assert_eq!(m.socket_count(), 8);
    let colours = vec!["red".to_string(), "green".to_string(), "blue".to_string(), "alpha".to_string()];
    assert_eq!(m.structure(), vec![colours.clone(), colours]);
    m.modify(4, SocketOperation::SETLATCHED, 7);
    assert_eq!(m.draw(), vec![clear(7, 0, 0, 0)]);
    m.modify(0, SocketOperation::SETLATCHED, 5);
    assert_eq!(m.draw(), vec![clear(5, 0, 0, 0), clear(7, 0, 0, 0)]);
}
