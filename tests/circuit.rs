use logic_boxes::circuit::CircuitError;
use logic_boxes::connector::{Connector, ConnectorDirection};
use logic_boxes::container::{output_input_pair, Container};
use logic_boxes::function_box::FunctionBox;
use logic_boxes::persistence::Snapshot;

fn names(ns: &[&str]) -> Vec<String> {
    ns.iter().map(|n| n.to_string()).collect()
}

fn make_box(kind: &str, inputs: &[&str], outputs: &[&str]) -> FunctionBox {
    FunctionBox::new(kind, names(inputs), names(outputs))
}

fn nand() -> FunctionBox {
    make_box("nand", &["i1", "i2"], &["o"])
}

fn one() -> FunctionBox {
    make_box("1", &[], &["o"])
}

fn zero() -> FunctionBox {
    make_box("0", &[], &["o"])
}

fn state(c: &Container, t: (usize, usize)) -> bool {
    c.connector_state(t).unwrap()
}

#[test]
fn connect_then_input_is_taken() {
    let mut c = Container::new();
    let s = c.add(one());
    let g = c.add(nand());
    let other = c.add(one());
    assert!(c.can_connect((s, 0), (g, 0)));
    assert_eq!(c.connect((s, 0), (g, 0)), Ok(()));
    assert!(!c.can_connect((s, 0), (g, 0)));
    assert!(!c.can_connect((other, 0), (g, 0)));
    assert!(!c.can_connect((g, 0), (other, 0)));
    assert!(c.input_driven((g, 0)));
    assert!(!c.input_driven((g, 1)));
    assert!(c.can_connect((g, 1), (other, 0)));
}

#[test]
fn connect_twice_keeps_one_wire() {
    let mut c = Container::new();
    let s = c.add(one());
    let g = c.add(nand());
    assert_eq!(c.connect((s, 0), (g, 1)), Ok(()));
    assert_eq!(c.connect((s, 0), (g, 1)), Err(CircuitError::InputAlreadyDriven));
    assert_eq!(c.wires_between(s, g), vec![(0, 1)]);
    assert_eq!(c.edge_count(), 1);
}

#[test]
fn wires_of_one_pair_share_an_edge() {
    let mut c = Container::new();
    let s = c.add(one());
    let g = c.add(nand());
    c.connect((s, 0), (g, 0)).unwrap();
    c.connect((s, 0), (g, 1)).unwrap();
    assert_eq!(c.edge_count(), 1);
    assert_eq!(c.wires_between(s, g), vec![(0, 0), (0, 1)]);
    assert_eq!(c.wires_between(g, s), vec![]);
}

#[test]
fn disconnect_removes_only_that_input() {
    let mut c = Container::new();
    let s = c.add(one());
    let g = c.add(nand());
    c.connect((s, 0), (g, 0)).unwrap();
    c.connect((s, 0), (g, 1)).unwrap();
    c.tick().unwrap();
    assert!(state(&c, (g, 0)));
    assert_eq!(c.disconnect((g, 0)), Ok(()));
    assert_eq!(c.wires_between(s, g), vec![(0, 1)]);
    assert_eq!(c.edge_count(), 1);
    assert!(!state(&c, (g, 0)));
    assert!(state(&c, (g, 1)));
    assert!(!c.input_driven((g, 0)));
}

#[test]
fn disconnect_last_wire_removes_edge() {
    let mut c = Container::new();
    let a = c.add(one());
    let b = c.add(one());
    let g = c.add(nand());
    c.connect((a, 0), (g, 0)).unwrap();
    c.connect((b, 0), (g, 1)).unwrap();
    assert_eq!(c.edge_count(), 2);
    assert_eq!(c.disconnect((g, 0)), Ok(()));
    assert_eq!(c.edge_count(), 1);
    assert_eq!(c.wires_between(a, g), vec![]);
    assert_eq!(c.wires_between(b, g), vec![(0, 1)]);
    assert!(c.can_connect((a, 0), (g, 0)));
}

#[test]
fn disconnect_rejects_outputs_and_missing_connectors() {
    let mut c = Container::new();
    let s = c.add(one());
    let g = c.add(nand());
    c.connect((s, 0), (g, 0)).unwrap();
    assert_eq!(c.disconnect((s, 0)), Err(CircuitError::InvalidWiring));
    assert_eq!(c.disconnect((g, 7)), Err(CircuitError::InvalidWiring));
    assert_eq!(c.disconnect((9, 0)), Err(CircuitError::InvalidWiring));
    assert_eq!(c.wires_between(s, g), vec![(0, 0)]);
}

#[test]
fn disconnect_of_undriven_input_only_lowers_it() {
    let mut c = Container::new();
    let g = c.add(nand());
    assert_eq!(c.disconnect((g, 1)), Ok(()));
    assert_eq!(c.edge_count(), 0);
    assert!(!state(&c, (g, 1)));
}

#[test]
fn constant_boxes_ignore_wiring() {
    let mut c = Container::new();
    let hi = c.add(make_box("1", &["x"], &["o"]));
    let lo = c.add(make_box("0", &["x"], &["o"]));
    c.connect((hi, 1), (lo, 0)).unwrap();
    c.connect((lo, 1), (hi, 0)).unwrap();
    for _ in 0..3 {
        c.tick().unwrap();
        assert!(state(&c, (hi, 1)));
        assert!(!state(&c, (lo, 1)));
    }
}

#[test]
fn nand_with_one_undriven_input_is_high() {
    let mut c = Container::new();
    let g = c.add(nand());
    let s = c.add(one());
    let i1 = c.get_box(g).unwrap().get_input_connector("i1").unwrap().idx;
    let o = c.get_box(s).unwrap().get_output_connector("o").unwrap().idx;
    c.connect((s, o), (g, i1)).unwrap();
    c.tick().unwrap();
    let go = c.get_box(g).unwrap().get_output_connector("o").unwrap().idx;
    assert!(state(&c, (g, go)));
    assert!(state(&c, (g, i1)));
    assert!(!state(&c, (g, 1)));
}

#[test]
fn nand_of_two_high_sources_is_low() {
    let mut c = Container::new();
    let a = c.add(one());
    let b = c.add(one());
    let g = c.add(nand());
    c.connect((a, 0), (g, 0)).unwrap();
    c.connect((b, 0), (g, 1)).unwrap();
    c.tick().unwrap();
    assert!(!state(&c, (g, 2)));
}

#[test]
fn evaluation_follows_handle_order() {
    // the nand box has the lowest handle, so in the first tick it still reads low inputs
    let mut c = Container::new();
    let g = c.add(nand());
    let a = c.add(one());
    let b = c.add(one());
    c.connect((a, 0), (g, 0)).unwrap();
    c.connect((b, 0), (g, 1)).unwrap();
    c.tick().unwrap();
    assert!(state(&c, (g, 2)));
    assert!(state(&c, (g, 0)) && state(&c, (g, 1)));
    c.tick().unwrap();
    assert!(!state(&c, (g, 2)));
}

#[test]
fn feedback_loop_advances_one_step_per_tick() {
    let mut c = Container::new();
    let g = c.add(make_box("nand", &["a"], &["o"]));
    c.connect((g, 1), (g, 0)).unwrap();
    let mut seen = Vec::new();
    for _ in 0..4 {
        c.tick().unwrap();
        seen.push(state(&c, (g, 1)));
    }
    assert_eq!(seen, vec![true, false, true, false]);
}

#[test]
fn tick_marks_every_box() {
    let mut c = Container::new();
    assert_eq!(c.generation(), 0);
    c.tick().unwrap();
    assert_eq!(c.generation(), 1);
    let a = c.add(one());
    assert_eq!(c.get_box(a).unwrap().generation, 0);
    c.tick().unwrap();
    c.tick().unwrap();
    assert_eq!(c.generation(), 3);
    assert_eq!(c.get_box(a).unwrap().generation, 3);
}

#[test]
fn tick_reports_unsupported_kind() {
    let mut c = Container::new();
    let s = c.add(one());
    let x = c.add(make_box("xor", &["a", "b"], &["o"]));
    let y = c.add(make_box("output_toggle", &["a"], &[]));
    c.connect((s, 0), (x, 0)).unwrap();
    let r = c.tick();
    assert_eq!(r, Err(CircuitError::UnsupportedGateKind { box_ref: x, kind: "xor".to_string() }));
    assert_eq!(c.generation(), 0);
    assert!(!state(&c, (s, 0)));
    assert!(!state(&c, (x, 0)));
    assert_ne!(y, x);
}

#[test]
fn connect_rejects_wrong_directions() {
    let mut c = Container::new();
    let a = c.add(one());
    let b = c.add(one());
    let g = c.add(nand());
    assert_eq!(c.connect((a, 0), (b, 0)), Err(CircuitError::InvalidWiring));
    assert_eq!(c.connect((g, 0), (a, 0)), Err(CircuitError::InvalidWiring));
    assert_eq!(c.connect((g, 2), (g, 5)), Err(CircuitError::InvalidWiring));
    assert_eq!(c.connect((7, 0), (g, 0)), Err(CircuitError::InvalidWiring));
    assert_eq!(c.edge_count(), 0);
    assert!(!c.can_connect((a, 0), (b, 0)));
    assert!(!c.can_connect((g, 0), (g, 1)));
}

#[test]
fn connect_rejects_driven_input() {
    let mut c = Container::new();
    let a = c.add(one());
    let b = c.add(one());
    let g = c.add(nand());
    c.connect((a, 0), (g, 0)).unwrap();
    assert_eq!(c.connect((b, 0), (g, 0)), Err(CircuitError::InputAlreadyDriven));
    assert_eq!(c.edge_count(), 1);
    assert_eq!(c.wires_between(a, g), vec![(0, 0)]);
    assert_eq!(c.wires_between(b, g), vec![]);
}

#[test]
fn a_box_may_feed_itself() {
    let mut c = Container::new();
    let g = c.add(nand());
    assert!(c.can_connect((g, 2), (g, 1)));
    assert_eq!(c.connect((g, 2), (g, 1)), Ok(()));
    assert_eq!(c.wires_between(g, g), vec![(2, 1)]);
}

#[test]
fn output_input_pair_orders_terminals() {
    let mut c = Container::new();
    let s = c.add(one());
    let g = c.add(nand());
    assert_eq!(output_input_pair(&c, (g, 1), (s, 0)), Some(((s, 0), (g, 1))));
    assert_eq!(output_input_pair(&c, (s, 0), (g, 1)), Some(((s, 0), (g, 1))));
    assert_eq!(output_input_pair(&c, (g, 0), (g, 1)), None);
    assert_eq!(output_input_pair(&c, (g, 3), (s, 0)), None);
}

#[test]
fn attached_connectors() {
    let mut c = Container::new();
    let s = c.add(one());
    let g = c.add(nand());
    c.connect((s, 0), (g, 1)).unwrap();
    assert!(c.is_connected((s, 0)));
    assert!(c.is_connected((g, 1)));
    assert!(!c.is_connected((g, 0)));
    assert!(!c.is_connected((g, 2)));
}

#[test]
fn add_hands_out_handles_in_order() {
    let mut c = Container::new();
    assert_eq!(c.add(one()), 0);
    assert_eq!(c.add(zero()), 1);
    assert_eq!(c.add(nand()), 2);
    assert_eq!(c.box_count(), 3);
    assert_eq!(c.get_box(1).unwrap().name, "0");
    assert!(c.get_box(3).is_none());
    assert_eq!(c.connector_state((2, 3)), None);
}

#[test]
fn add_keeps_the_box_as_given() {
    let mut c = Container::new();
    let mut b = one();
    b.generation = 9;
    b.connectors[0].state = true;
    let h = c.add(b);
    assert_eq!(c.get_box(h).unwrap().generation, 9);
    assert!(state(&c, (h, 0)));
    c.tick().unwrap();
    assert_eq!(c.get_box(h).unwrap().generation, 1);
}

fn sample() -> Container {
    let mut c = Container::new();
    let a = c.add(one());
    let z = c.add(zero());
    let g = c.add(nand());
    let h = c.add(nand());
    c.connect((a, 0), (g, 0)).unwrap();
    c.connect((z, 0), (g, 1)).unwrap();
    c.connect((g, 2), (h, 0)).unwrap();
    c.connect((g, 2), (h, 1)).unwrap();
    c.tick().unwrap();
    c
}

#[test]
fn snapshot_round_trip() {
    let c = sample();
    let r = Container::restore(c.snapshot()).unwrap();
    assert_eq!(r.box_count(), c.box_count());
    assert_eq!(r.edge_count(), c.edge_count());
    assert_eq!(r.generation(), c.generation());
    for a in 0..c.box_count() {
        for b in 0..c.box_count() {
            assert_eq!(r.wires_between(a, b), c.wires_between(a, b));
        }
        let n = c.get_box(a).unwrap().connectors.len();
        assert_eq!(r.get_box(a).unwrap().connectors.len(), n);
        assert_eq!(r.get_box(a).unwrap().name, c.get_box(a).unwrap().name);
        for k in 0..n {
            assert_eq!(r.connector_state((a, k)), c.connector_state((a, k)));
        }
    }
    assert_eq!(r.wires_between(2, 3), vec![(2, 0), (2, 1)]);
}

#[test]
fn snapshot_lists_edges() {
    let c = sample();
    let s = c.snapshot();
    assert_eq!(s.boxes.len(), 4);
    assert_eq!(s.edges.len(), 3);
    assert_eq!(s.generation, 1);
    assert!(s.is_valid());
}

#[test]
fn restore_rejects_second_driver() {
    let mut s = sample().snapshot();
    s.edges.push((1, 3, vec![(0, 1)]));
    assert!(!s.is_valid());
    assert_eq!(Container::restore(s).unwrap_err(), CircuitError::PersistenceError);
}

#[test]
fn restore_rejects_bad_documents() {
    let mut s = sample().snapshot();
    s.edges[0].2.clear();
    assert_eq!(Container::restore(s).unwrap_err(), CircuitError::PersistenceError);

    let mut s = sample().snapshot();
    s.edges.push((3, 0, vec![(0, 0)]));
    assert_eq!(Container::restore(s).unwrap_err(), CircuitError::PersistenceError);

    let mut s = sample().snapshot();
    s.edges.push((0, 2, vec![(0, 2)]));
    assert_eq!(Container::restore(s).unwrap_err(), CircuitError::PersistenceError);

    let mut s = sample().snapshot();
    let dup = (s.edges[0].0, s.edges[0].1, vec![]);
    s.edges.push(dup);
    assert_eq!(Container::restore(s).unwrap_err(), CircuitError::PersistenceError);

    let mut s = sample().snapshot();
    s.boxes[2].inputs_len = 1;
    assert_eq!(Container::restore(s).unwrap_err(), CircuitError::PersistenceError);

    let mut s = sample().snapshot();
    s.boxes[2].connectors[0].idx = 1;
    assert_eq!(Container::restore(s).unwrap_err(), CircuitError::PersistenceError);
}

#[test]
fn restore_keeps_box_generations() {
    let mut s = sample().snapshot();
    s.boxes[0].generation = 5;
    let c = Container::restore(s).unwrap();
    assert_eq!(c.get_box(0).unwrap().generation, 5);
    assert_eq!(c.generation(), 1);
}

#[test]
fn restore_of_empty_snapshot() {
    let s = Snapshot { boxes: vec![], edges: vec![], generation: 0 };
    let c = Container::restore(s).unwrap();
    assert_eq!(c.box_count(), 0);
    assert_eq!(c.edge_count(), 0);
}

#[test]
fn connector_equality_ignores_name() {
    let a = Connector::new("a".to_string(), ConnectorDirection::Input, 1);
    let b = Connector::new_input("b".to_string(), 1);
    let c = Connector::new_output("a".to_string(), 1);
    assert!(a == b);
    assert!(a != c);
    assert!(!a.state);
    assert_eq!(c.direction, ConnectorDirection::Output);
    let d = a.duplicate();
    assert_eq!(d.name, "a");
    assert_eq!(d.idx, 1);
}

#[test]
fn forward_chain_settles_in_one_tick() {
    let mut c = Container::new();
    let s = c.add(one());
    let g = c.add(nand());
    let h = c.add(nand());
    c.connect((s, 0), (g, 0)).unwrap();
    c.connect((s, 0), (g, 1)).unwrap();
    c.connect((g, 2), (h, 0)).unwrap();
    c.tick().unwrap();
    assert!(!state(&c, (g, 2)));
    assert!(state(&c, (h, 2)));
    assert!(!state(&c, (h, 0)));
}
