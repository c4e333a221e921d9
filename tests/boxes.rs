use logic_boxes::connector::{Connector, ConnectorDirection};
use logic_boxes::container::Container;
use logic_boxes::draw::{ConnectorDraw, EntityKind, FunctionBoxCollideDesc};
use logic_boxes::function_box::FunctionBox;
use logic_boxes::gate::{same_text, GateKind};
use logic_boxes::interaction::WireDrag;

fn names(ns: &[&str]) -> Vec<String> {
    ns.iter().map(|n| n.to_string()).collect()
}

#[test]
fn new_box_lays_out_inputs_then_outputs() {
    let b = FunctionBox::new("nand", names(&["i1", "i2"]), names(&["o"]));
    assert_eq!(b.name, "nand");
    assert_eq!(b.inputs_len, 2);
    assert_eq!(b.outputs_len, 1);
    assert_eq!(b.generation, 0);
    assert_eq!(b.connectors.len(), 3);
    let dirs: Vec<ConnectorDirection> = b.connectors.iter().map(|c| c.direction).collect();
    assert_eq!(dirs, vec![ConnectorDirection::Input, ConnectorDirection::Input, ConnectorDirection::Output]);
    let idxs: Vec<usize> = b.connectors.iter().map(|c| c.idx).collect();
    assert_eq!(idxs, vec![0, 1, 2]);
    let ns: Vec<&str> = b.connectors.iter().map(|c| c.name.as_str()).collect();
    assert_eq!(ns, vec!["i1", "i2", "o"]);
    assert!(b.connectors.iter().all(|c| !c.state));
    assert!(b.is_well_formed());
}

#[test]
fn box_without_connectors() {
    let b = FunctionBox::new("1", vec![], vec![]);
    assert!(b.connectors.is_empty());
    assert!(b.inputs_iter().is_empty());
    assert!(b.outputs_iter().is_empty());
    assert!(b.get_input_connector("x").is_none());
}

#[test]
fn connector_lookup_by_name_and_direction() {
    let b = FunctionBox::new("nand", names(&["a", "b", "a"]), names(&["a", "q"]));
    assert_eq!(b.get_input_connector("a").unwrap().idx, 0);
    assert_eq!(b.get_input_connector("b").unwrap().idx, 1);
    assert!(b.get_input_connector("q").is_none());
    assert_eq!(b.get_output_connector("a").unwrap().idx, 3);
    assert_eq!(b.get_output_connector("q").unwrap().idx, 4);
    assert!(b.get_output_connector("b").is_none());
}

#[test]
fn input_and_output_slices() {
    let b = FunctionBox::new("nand", names(&["i1", "i2"]), names(&["o", "p"]));
    let ins: Vec<usize> = b.inputs_iter().iter().map(|c| c.idx).collect();
    let outs: Vec<usize> = b.outputs_iter().iter().map(|c| c.idx).collect();
    assert_eq!(ins, vec![0, 1]);
    assert_eq!(outs, vec![2, 3]);
}

#[test]
fn gate_kinds_by_name() {
    assert_eq!(GateKind::from_name("nand"), GateKind::Nand);
    assert_eq!(GateKind::from_name("1"), GateKind::One);
    assert_eq!(GateKind::from_name("0"), GateKind::Zero);
    assert_eq!(GateKind::from_name("NAND"), GateKind::Unsupported);
    assert_eq!(GateKind::from_name("nand "), GateKind::Unsupported);
    assert_eq!(GateKind::from_name(""), GateKind::Unsupported);
    assert_eq!(GateKind::from_name("output_toggle"), GateKind::Unsupported);
}

#[test]
fn text_comparison() {
    assert!(same_text("", ""));
    assert!(same_text("ab", "ab"));
    assert!(!same_text("ab", "abc"));
    assert!(!same_text("ab", "ac"));
    assert!(same_text("é1", "é1"));
}

#[test]
fn nand_truth_table() {
    for (a, b, expected) in [(false, false, true), (false, true, true), (true, false, true), (true, true, false)] {
        let mut g = FunctionBox::new("nand", names(&["i1", "i2"]), names(&["o"]));
        g.connectors[0].state = a;
        g.connectors[1].state = b;
        assert_eq!(g.evaluate(), Some(expected));
    }
    let g = FunctionBox::new("nand", vec![], names(&["o"]));
    assert_eq!(g.evaluate(), Some(false));
}

#[test]
fn constant_and_unknown_rules() {
    let mut one = FunctionBox::new("1", names(&["x"]), names(&["o"]));
    let mut zero = FunctionBox::new("0", names(&["x"]), names(&["o"]));
    assert_eq!(one.evaluate(), Some(true));
    assert_eq!(zero.evaluate(), Some(false));
    one.connectors[0].state = true;
    zero.connectors[0].state = true;
    assert_eq!(one.evaluate(), Some(true));
    assert_eq!(zero.evaluate(), Some(false));
    let other = FunctionBox::new("xor", names(&["a", "b"]), names(&["o"]));
    assert_eq!(other.evaluate(), None);
}

#[test]
fn box_duplicate_keeps_everything() {
    let mut b = FunctionBox::new("nand", names(&["i1"]), names(&["o"]));
    b.connectors[1].state = true;
    b.generation = 4;
    let d = b.duplicate();
    assert_eq!(d.name, "nand");
    assert_eq!(d.generation, 4);
    assert!(d.connectors[1].state);
    assert_eq!(d.connectors[0].name, "i1");
}

#[test]
fn malformed_box_is_detected() {
    let mut b = FunctionBox::new("nand", names(&["i1"]), names(&["o"]));
    b.connectors[1].direction = ConnectorDirection::Input;
    assert!(!b.is_well_formed());
    let mut b = FunctionBox::new("nand", names(&["i1"]), names(&["o"]));
    b.outputs_len = 2;
    assert!(!b.is_well_formed());
}

#[test]
fn connector_draw_starts_plain() {
    let c = Connector::new_input("i".to_string(), 3);
    let d = ConnectorDraw::new(&c, 3);
    assert_eq!(d.idx, 3);
    assert!(!d.highlighted);
    assert!(!d.connected);
    assert_eq!(d.connector.name, "i");
}

#[test]
fn dragging_a_wire_connects_on_release() {
    let mut c = Container::new();
    let s = c.add(FunctionBox::new("1", vec![], names(&["o"])));
    let g = c.add(FunctionBox::new("nand", names(&["i1", "i2"]), names(&["o"])));
    let mut d = WireDrag::new();
    d.pointer_over(&mut c, s, Some(FunctionBoxCollideDesc::Connector(0)));
    assert_eq!(d.dragged_entity_kind, Some(EntityKind::Connector));
    assert_eq!(d.dragged_connector, Some((s, 0)));
    d.clear_target();
    d.pointer_over(&mut c, g, Some(FunctionBoxCollideDesc::Connector(2)));
    assert_eq!(d.dragged_connector_target, None);
    d.pointer_over(&mut c, g, Some(FunctionBoxCollideDesc::Connector(1)));
    assert_eq!(d.dragged_connector_target, Some((g, 1)));
    assert_eq!(d.release(&mut c), Some(Ok(())));
    assert_eq!(c.wires_between(s, g), vec![(0, 1)]);
    assert_eq!(d.dragged_connector, None);
    assert_eq!(d.dragged_entity_kind, None);
}

#[test]
fn grabbing_an_input_pulls_its_wire() {
    let mut c = Container::new();
    let s = c.add(FunctionBox::new("1", vec![], names(&["o"])));
    let g = c.add(FunctionBox::new("nand", names(&["i1", "i2"]), names(&["o"])));
    c.connect((s, 0), (g, 0)).unwrap();
    let mut d = WireDrag::new();
    d.pointer_over(&mut c, g, Some(FunctionBoxCollideDesc::Connector(0)));
    assert_eq!(c.edge_count(), 0);
    assert_eq!(d.dragged_connector, Some((g, 0)));
    d.pointer_over(&mut c, s, Some(FunctionBoxCollideDesc::Connector(0)));
    assert_eq!(d.dragged_connector_target, Some((s, 0)));
    assert_eq!(d.release(&mut c), Some(Ok(())));
    assert_eq!(c.wires_between(s, g), vec![(0, 0)]);
}

#[test]
fn dragging_a_box_and_releasing_connects_nothing() {
    let mut c = Container::new();
    let g = c.add(FunctionBox::new("nand", names(&["i1"]), names(&["o"])));
    let mut d = WireDrag::new();
    d.pointer_over(&mut c, g, None);
    assert_eq!(d.dragged_entity_kind, None);
    d.pointer_over(&mut c, g, Some(FunctionBoxCollideDesc::FunctionBox));
    assert_eq!(d.dragged_entity_kind, Some(EntityKind::FunctionBox));
    assert_eq!(d.dragged_function_box, Some(g));
    d.pointer_over(&mut c, g, Some(FunctionBoxCollideDesc::Connector(0)));
    assert_eq!(d.dragged_connector, None);
    assert_eq!(d.release(&mut c), None);
    assert_eq!(d.dragged_function_box, None);
}

#[test]
fn mutable_connector_slices() {
    let mut g = FunctionBox::new("nand", names(&["i1", "i2"]), names(&["o"]));
    for c in g.inputs_iter_mut().iter_mut() {
        c.state = true;
    }
    assert_eq!(g.evaluate(), Some(false));
    assert_eq!(g.outputs_iter_mut().len(), 1);
    g.outputs_iter_mut()[0].state = true;
    assert!(g.connectors[2].state);
    assert_eq!(g.inputs_iter_mut().len(), 2);
}
