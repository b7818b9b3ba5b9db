use turiplogic::canvas::{Canvas, ClipboardElement};
use turiplogic::component::CompKind;
use turiplogic::geometry::IVec2;
use turiplogic::history::Action;
use turiplogic::logic::LL;
use turiplogic::nodes::ElemIndex;

fn p(x: i32, y: i32) -> IVec2 {
    IVec2::new(x, y)
}

#[test]
fn add_comp_and_undo_redo() {
    let mut c = Canvas::blank();
    assert!(c.record_and_execute(Action::AddComp { to: p(0, 0), kind: CompKind::AndGate }));
    assert_eq!(c.comps.len(), 1);
    assert_eq!(c.nodes.node_storage.len(), 3);
    assert_eq!(c.nodes.count_nodes(p(4, 2)), 1);
    assert_eq!(c.nodes.count_nodes(p(0, 1)), 1);
    assert!(c.undo());
    assert_eq!(c.comps.len(), 0);
    assert_eq!(c.nodes.node_storage.len(), 0);
    assert!(!c.undo());
    assert!(c.redo());
    assert_eq!(c.comps.len(), 1);
    assert_eq!(c.nodes.node_storage.len(), 3);
    assert!(!c.redo());
}

#[test]
fn input_drives_gate_input() {
    let mut c = Canvas::blank();
    assert!(c.record_and_execute(Action::AddComp { to: p(0, 0), kind: CompKind::AndGate }));
    assert!(c.record_and_execute(Action::AddComp { to: p(-7, 0), kind: CompKind::Input { state: false } }));
    c.start_record();
    c.checked_add_wire(p(-5, 1), p(0, 1));
    c.end_record();
    assert_eq!(c.wires.wires.len(), 1);
    assert_eq!(c.nodes.query_node(p(-5, 1)), LL::L);
    let k = c.find_comp_at(p(-7, 0)).unwrap();
    assert_eq!(c.nodes.query_node(p(0, 1)), LL::L);
    assert_eq!(c.nodes.query_node(p(4, 2)), LL::U);
    // The output node was stamped with the current pass when it was placed,
    // so the first click is absorbed by it.
    c.click_comp(k);
    assert_eq!(c.nodes.query_node(p(-5, 1)), LL::L);
    assert_eq!(c.nodes.query_node(p(0, 1)), LL::L);
    c.click_comp(k);
    assert_eq!(c.nodes.query_node(p(-5, 1)), LL::L);
    assert_eq!(c.nodes.query_node(p(0, 1)), LL::L);
    assert_eq!(c.nodes.query_node(p(4, 2)), LL::U);
    c.click_comp(k);
    assert_eq!(c.nodes.query_node(p(-5, 1)), LL::H);
    assert_eq!(c.nodes.query_node(p(0, 1)), LL::H);
    assert_eq!(c.nodes.query_node(p(4, 2)), LL::U);
    c.click_comp(k);
    assert_eq!(c.nodes.query_node(p(0, 1)), LL::L);
}

#[test]
fn gate_computes_output() {
    let mut c = Canvas::blank();
    assert!(c.record_and_execute(Action::AddComp { to: p(0, 0), kind: CompKind::NandGate }));
    assert!(c.record_and_execute(Action::AddComp { to: p(-2, 0), kind: CompKind::Input { state: true } }));
    assert!(c.record_and_execute(Action::AddComp { to: p(-2, 2), kind: CompKind::Input { state: true } }));
    let a = c.find_comp_at(p(-2, 0)).unwrap();
    let b = c.find_comp_at(p(-2, 2)).unwrap();
    c.click_comp(a);
    c.click_comp(a);
    assert_eq!(c.nodes.query_node(p(0, 1)), LL::H);
    assert_eq!(c.nodes.query_node(p(0, 3)), LL::L);
    assert_eq!(c.nodes.query_node(p(5, 2)), LL::H);
    c.click_comp(b);
    c.click_comp(b);
    assert_eq!(c.nodes.query_node(p(0, 1)), LL::H);
    assert_eq!(c.nodes.query_node(p(0, 3)), LL::H);
    assert_eq!(c.nodes.query_node(p(5, 2)), LL::L);
    c.click_comp(a);
    assert_eq!(c.nodes.query_node(p(0, 1)), LL::L);
    assert_eq!(c.nodes.query_node(p(5, 2)), LL::H);
}

#[test]
fn input_on_high_net_is_refused() {
    let mut c = Canvas::blank();
    assert!(c.record_and_execute(Action::AddComp { to: p(0, 0), kind: CompKind::Input { state: true } }));
    let k = c.find_comp_at(p(0, 0)).unwrap();
    c.click_comp(k);
    c.click_comp(k);
    assert_eq!(c.nodes.query_node(p(2, 1)), LL::H);
    assert!(!c.execute_action(Action::AddComp { to: p(0, 0), kind: CompKind::Input { state: false } }));
    assert_eq!(c.comps.len(), 1);
}

#[test]
fn wire_add_delete() {
    let mut c = Canvas::blank();
    assert!(c.record_and_execute(Action::AddWire { from: p(0, 0), to: p(3, 0) }));
    assert_eq!(c.wires.wires.len(), 1);
    assert_eq!(c.nodes.node_storage.len(), 2);
    assert!(c.record_and_execute(Action::DeleteWire { from: p(0, 0), to: p(3, 0) }));
    assert_eq!(c.wires.wires.len(), 0);
    assert_eq!(c.nodes.node_storage.len(), 0);
    assert!(!c.execute_action(Action::DeleteWire { from: p(0, 0), to: p(3, 0) }));
    assert!(c.undo());
    assert_eq!(c.wires.wires.len(), 1);
}

#[test]
fn split_on_crossing() {
    let mut c = Canvas::blank();
    assert!(c.record_and_execute(Action::AddWire { from: p(0, 0), to: p(4, 0) }));
    c.start_record();
    c.checked_add_wire(p(2, 0), p(2, 3));
    c.end_record();
    assert_eq!(c.wires.wires.len(), 3);
    assert!(c.find_wire(p(0, 0), p(2, 0), false, false).is_some());
    assert!(c.find_wire(p(2, 0), p(4, 0), false, false).is_some());
    assert!(c.find_wire(p(2, 0), p(2, 3), false, false).is_some());
    assert_eq!(c.nodes.count_nodes(p(2, 0)), 3);
}

#[test]
fn covered_wire_not_added() {
    let mut c = Canvas::blank();
    assert!(c.record_and_execute(Action::AddWire { from: p(0, 0), to: p(4, 0) }));
    c.start_record();
    c.checked_add_wire(p(1, 0), p(3, 0));
    c.end_record();
    assert_eq!(c.wires.wires.len(), 1);
}

#[test]
fn move_comp_and_back() {
    let mut c = Canvas::blank();
    assert!(c.record_and_execute(Action::AddComp { to: p(0, 0), kind: CompKind::OrGate }));
    assert!(c.record_and_execute(Action::MoveComp { from: p(0, 0), to: p(3, 4) }));
    assert!(c.find_comp_at(p(3, 4)).is_some());
    assert_eq!(c.nodes.count_nodes(p(8, 6)), 1);
    assert_eq!(c.nodes.count_nodes(p(5, 2)), 0);
    assert!(c.undo());
    assert!(c.find_comp_at(p(0, 0)).is_some());
    assert_eq!(c.nodes.count_nodes(p(5, 2)), 1);
    assert!(!c.execute_action(Action::MoveComp { from: p(9, 9), to: p(0, 0) }));
}

#[test]
fn move_wire() {
    let mut c = Canvas::blank();
    assert!(c.record_and_execute(Action::AddWire { from: p(0, 0), to: p(2, 0) }));
    assert!(c.record_and_execute(Action::MoveWire { from: p(2, 0), to: p(0, 0), by: p(0, 5) }));
    assert!(c.find_wire(p(0, 5), p(2, 5), false, false).is_some());
    assert_eq!(c.nodes.count_nodes(p(0, 5)), 1);
    assert_eq!(c.nodes.count_nodes(p(0, 0)), 0);
}

#[test]
fn copy_and_paste() {
    let mut c = Canvas::blank();
    assert!(c.record_and_execute(Action::AddComp { to: p(3, 4), kind: CompKind::AndGate }));
    assert!(c.record_and_execute(Action::AddWire { from: p(7, 6), to: p(9, 6) }));
    let k = c.find_comp_at(p(3, 4)).unwrap();
    let w = c.find_wire(p(7, 6), p(9, 6), false, false).unwrap();
    c.select(Some(ElemIndex::Comp(k)));
    c.select(Some(ElemIndex::Wire(w)));
    c.copy();
    assert_eq!(c.clipboard, vec![
        ClipboardElement::Component { kind: CompKind::AndGate, pos: p(3, 4) },
        ClipboardElement::Wire { start: p(7, 6), end: p(9, 6) },
    ]);
    c.select(None);
    assert_eq!(c.selection.len(), 0);
    c.paste(p(20, 0));
    assert!(c.find_comp_at(p(23, 4)).is_some());
    assert!(c.find_wire(p(27, 6), p(29, 6), false, false).is_some());
    assert!(c.undo());
    assert!(c.find_comp_at(p(23, 4)).is_none());
}

#[test]
fn copy_offset_negative() {
    let mut c = Canvas::blank();
    assert!(c.record_and_execute(Action::AddComp { to: p(-3, -4), kind: CompKind::AndGate }));
    let k = c.find_comp_at(p(-3, -4)).unwrap();
    c.select(Some(ElemIndex::Comp(k)));
    c.copy();
    assert_eq!(c.clipboard, vec![ClipboardElement::Component { kind: CompKind::AndGate, pos: p(0, 0) }]);
}

#[test]
fn delete_selection_removes() {
    let mut c = Canvas::blank();
    assert!(c.record_and_execute(Action::AddComp { to: p(0, 0), kind: CompKind::XorGate }));
    assert!(c.record_and_execute(Action::AddWire { from: p(10, 0), to: p(12, 0) }));
    c.select_in_box(p(-1, -1), p(20, 1));
    assert_eq!(c.selection.len(), 2);
    c.delete_selection();
    assert_eq!(c.comps.len(), 0);
    assert_eq!(c.wires.wires.len(), 0);
    assert_eq!(c.selection.len(), 0);
    assert!(c.undo());
    assert_eq!(c.comps.len(), 1);
    assert_eq!(c.wires.wires.len(), 1);
}

#[test]
fn drag_blocked_by_overlap() {
    let mut c = Canvas::blank();
    assert!(c.record_and_execute(Action::AddComp { to: p(0, 0), kind: CompKind::AndGate }));
    assert!(c.record_and_execute(Action::AddComp { to: p(10, 0), kind: CompKind::AndGate }));
    let k = c.find_comp_at(p(0, 0)).unwrap();
    c.select(Some(ElemIndex::Comp(k)));
    c.start_record();
    assert!(!c.move_selection(k, p(8, 1)));
    assert!(c.move_selection(k, p(0, 6)));
    c.end_record();
    assert!(c.find_comp_at(p(0, 6)).is_some());
}

#[test]
fn starting_circuit() {
    let c = Canvas::new();
    assert_eq!(c.comps.len(), 5);
    assert_eq!(c.wires.wires.len(), 3);
    assert_eq!(c.history.cursor, 1);
    assert_eq!(c.nodes.query_node(p(-5, 1)), LL::L);
    assert_eq!(c.nodes.query_node(p(0, 1)), LL::L);
}

#[test]
fn box_selection_appends_inside_elements() {
    let mut c = Canvas::blank();
    assert!(c.record_and_execute(Action::AddComp { to: p(0, 0), kind: CompKind::AndGate }));
    assert!(c.record_and_execute(Action::AddComp { to: p(10, 0), kind: CompKind::OrGate }));
    assert!(c.record_and_execute(Action::AddWire { from: p(20, 0), to: p(22, 0) }));
    assert!(c.record_and_execute(Action::AddWire { from: p(20, 5), to: p(30, 5) }));
    let k = c.find_comp_at(p(10, 0)).unwrap();
    c.select(Some(ElemIndex::Comp(k)));
    c.select_in_box(p(22, 6), p(-1, -1));
    // the wire reaching past the box is left out; the rest is appended in order
    let a = c.find_comp_at(p(0, 0)).unwrap();
    let w = c.find_wire(p(20, 0), p(22, 0), false, false).unwrap();
    assert_eq!(c.selection, vec![ElemIndex::Comp(k), ElemIndex::Comp(a), ElemIndex::Comp(k), ElemIndex::Wire(w)]);
    assert!(c.comps.get(a).unwrap().selected);
    assert!(!c.wires.wires.get(c.find_wire(p(20, 5), p(30, 5), false, false).unwrap()).unwrap().selected);
}

#[test]
fn added_wire_takes_merged_level() {
    let mut c = Canvas::blank();
    assert!(c.record_and_execute(Action::AddComp { to: p(0, 0), kind: CompKind::Input { state: false } }));
    assert!(c.record_and_execute(Action::AddWire { from: p(2, 1), to: p(6, 1) }));
    let w = c.find_wire(p(2, 1), p(6, 1), false, false).unwrap();
    let wire = *c.wires.wires.get(w).unwrap();
    assert_eq!(c.nodes.node_storage.get(wire.endnode.unwrap()).unwrap().logic_lvl, LL::L);
    assert_eq!(c.nodes.node_storage.get(wire.startnode.unwrap()).unwrap().logic_lvl, LL::L);
    assert_eq!(c.nodes.query_node(p(6, 1)), LL::L);
}

#[test]
fn undo_removes_added_wire_only() {
    let mut c = Canvas::blank();
    assert!(c.record_and_execute(Action::AddWire { from: p(0, 0), to: p(3, 0) }));
    let old = c.find_wire(p(0, 0), p(3, 0), false, false).unwrap();
    assert!(c.record_and_execute(Action::AddWire { from: p(0, 5), to: p(3, 5) }));
    assert_eq!(c.wires.wires.len(), 2);
    assert!(c.undo());
    assert_eq!(c.wires.wires.len(), 1);
    assert_eq!(c.find_wire(p(0, 0), p(3, 0), false, false), Some(old));
    assert!(c.find_wire(p(0, 5), p(3, 5), false, false).is_none());
    assert_eq!(c.nodes.count_nodes(p(0, 5)), 0);
}

#[test]
fn move_there_and_back() {
    let mut c = Canvas::blank();
    assert!(c.record_and_execute(Action::AddComp { to: p(0, 0), kind: CompKind::OrGate }));
    let k = c.find_comp_at(p(0, 0)).unwrap();
    assert!(c.record_and_execute(Action::MoveComp { from: p(0, 0), to: p(10, 0) }));
    assert_eq!(c.find_comp_at(p(10, 0)), Some(k));
    assert!(c.record_and_execute(Action::MoveComp { from: p(10, 0), to: p(0, 0) }));
    assert_eq!(c.find_comp_at(p(0, 0)), Some(k));
    assert_eq!(c.comps.get(k).unwrap().kind, CompKind::OrGate);
    assert_eq!(c.nodes.count_nodes(p(5, 2)), 1);
    assert_eq!(c.nodes.count_nodes(p(15, 2)), 0);
}

#[test]
fn undo_wire_move_and_deletion() {
    let mut c = Canvas::blank();
    assert!(c.record_and_execute(Action::AddWire { from: p(0, 0), to: p(0, 4) }));
    assert!(c.record_and_execute(Action::AddWire { from: p(7, 0), to: p(9, 0) }));
    let other = c.find_wire(p(7, 0), p(9, 0), false, false).unwrap();
    assert!(c.record_and_execute(Action::MoveWire { from: p(0, 0), to: p(0, 4), by: p(2, -1) }));
    assert!(c.find_wire(p(2, -1), p(2, 3), false, false).is_some());
    assert!(c.undo());
    assert!(c.find_wire(p(0, 0), p(0, 4), false, false).is_some());
    assert!(c.find_wire(p(2, -1), p(2, 3), false, false).is_none());
    assert!(c.record_and_execute(Action::DeleteWire { from: p(0, 0), to: p(0, 4) }));
    assert!(c.find_wire(p(0, 0), p(0, 4), false, false).is_none());
    assert!(c.undo());
    assert!(c.find_wire(p(0, 0), p(0, 4), false, false).is_some());
    assert_eq!(c.find_wire(p(7, 0), p(9, 0), false, false), Some(other));
    assert_eq!(c.wires.wires.len(), 2);
    // The step recorded after the undo also holds the undone move.
    assert!(c.redo());
    assert!(c.find_wire(p(0, 0), p(0, 4), false, false).is_none());
    assert!(c.find_wire(p(2, -1), p(2, 3), false, false).is_some());
}

#[test]
fn click_flips_only_inputs() {
    let mut c = Canvas::blank();
    assert!(c.record_and_execute(Action::AddComp { to: p(0, 0), kind: CompKind::XorGate }));
    assert!(c.record_and_execute(Action::AddComp { to: p(-9, 0), kind: CompKind::Input { state: false } }));
    let g = c.find_comp_at(p(0, 0)).unwrap();
    let i = c.find_comp_at(p(-9, 0)).unwrap();
    let pass = c.update_generation;
    c.click_comp(g);
    assert_eq!(c.comps.get(g).unwrap().kind, CompKind::XorGate);
    assert_eq!(c.update_generation, pass + 1);
    c.click_comp(i);
    assert_eq!(c.comps.get(i).unwrap().kind, CompKind::Input { state: true });
    assert_eq!(c.comps.get(i).unwrap().pos, p(-9, 0));
    c.click_comp(i);
    assert_eq!(c.comps.get(i).unwrap().kind, CompKind::Input { state: false });
}

#[test]
fn paste_places_clipboard_components() {
    let mut c = Canvas::blank();
    c.clipboard = vec![
        ClipboardElement::Component { kind: CompKind::NandGate, pos: p(0, 0) },
        ClipboardElement::Component { kind: CompKind::Input { state: false }, pos: p(-4, 1) },
    ];
    c.paste(p(10, 10));
    assert_eq!(c.comps.len(), 2);
    let a = c.find_comp_at(p(10, 10)).unwrap();
    let b = c.find_comp_at(p(6, 11)).unwrap();
    assert_eq!(c.comps.get(a).unwrap().kind, CompKind::NandGate);
    assert_eq!(c.comps.get(b).unwrap().kind, CompKind::Input { state: false });
    assert_eq!(c.history.cursor, 1);
    assert_eq!(c.history.records[0].actions.len(), 2);
}

#[test]
fn separate_wire_added_as_is() {
    let mut c = Canvas::blank();
    assert!(c.record_and_execute(Action::AddWire { from: p(0, 0), to: p(3, 0) }));
    let old = c.find_wire(p(0, 0), p(3, 0), false, false).unwrap();
    c.start_record();
    c.checked_add_wire(p(0, 5), p(3, 5));
    c.end_record();
    assert_eq!(c.wires.wires.len(), 2);
    assert_eq!(c.find_wire(p(0, 0), p(3, 0), false, false), Some(old));
    assert!(c.find_wire(p(0, 5), p(3, 5), false, false).is_some());
    assert_eq!(c.history.records[1].actions.len(), 1);
}

#[test]
fn touching_parallel_wire_is_merged() {
    let mut c = Canvas::blank();
    assert!(c.record_and_execute(Action::AddWire { from: p(0, 0), to: p(3, 0) }));
    c.start_record();
    c.checked_add_wire(p(3, 0), p(6, 0));
    c.end_record();
    assert_eq!(c.wires.wires.len(), 1);
    assert!(c.find_wire(p(0, 0), p(6, 0), false, false).is_some());
}

#[test]
fn split_records_both_actions() {
    let mut c = Canvas::blank();
    assert!(c.record_and_execute(Action::AddWire { from: p(0, 0), to: p(4, 0) }));
    c.start_record();
    c.checked_split(p(0, 0), p(4, 0), p(1, 0));
    c.end_record();
    assert_eq!(c.history.records[1].actions, vec![
        Action::OverwriteWire { oldstart: p(0, 0), oldend: p(4, 0), newstart: p(0, 0), newend: p(1, 0) },
        Action::AddWire { from: p(1, 0), to: p(4, 0) },
    ]);
    assert!(c.find_wire(p(0, 0), p(1, 0), false, false).is_some());
    assert!(c.find_wire(p(1, 0), p(4, 0), false, false).is_some());
    assert_eq!(c.nodes.count_nodes(p(1, 0)), 2);
}

#[test]
fn wire_and_component_give_up_their_nodes() {
    let mut c = Canvas::blank();
    assert!(c.record_and_execute(Action::AddComp { to: p(0, 0), kind: CompKind::AndGate }));
    assert!(c.record_and_execute(Action::AddWire { from: p(4, 2), to: p(8, 2) }));
    let w = c.find_wire(p(4, 2), p(8, 2), false, false).unwrap();
    let wire = *c.wires.wires.get(w).unwrap();
    let mut g = c.update_generation;
    wire.remove_nodes(&mut c.nodes, w, &c.wires, &c.comps, &mut g);
    assert_eq!(c.nodes.count_nodes(p(8, 2)), 0);
    assert_eq!(c.nodes.count_nodes(p(4, 2)), 1);
    let k = c.find_comp_at(p(0, 0)).unwrap();
    let comp = c.comps.get(k).unwrap();
    let keys = comp.nodes.clone();
    let kind = comp.kind;
    let pos = comp.pos;
    let copy = turiplogic::component::Component { kind, pos, nodes: keys, id: 0, move_request: None, selected: false };
    copy.remove_nodes(&mut c.nodes, k, &c.wires, &c.comps, &mut g);
    assert_eq!(c.nodes.node_storage.len(), 0);
}

#[test]
fn delete_wire_at_drops_it_from_selection() {
    let mut c = Canvas::blank();
    assert!(c.record_and_execute(Action::AddWire { from: p(0, 0), to: p(3, 0) }));
    assert!(c.record_and_execute(Action::AddWire { from: p(0, 5), to: p(3, 5) }));
    let w1 = c.find_wire(p(0, 0), p(3, 0), false, false).unwrap();
    let w2 = c.find_wire(p(0, 5), p(3, 5), false, false).unwrap();
    c.select(Some(ElemIndex::Wire(w1)));
    c.select(Some(ElemIndex::Wire(w2)));
    assert!(c.delete_wire_at(p(0, 0), p(3, 0)));
    assert_eq!(c.selection, vec![ElemIndex::Wire(w2)]);
    assert_eq!(c.wires.wires.len(), 1);
    assert!(c.undo());
    assert_eq!(c.wires.wires.len(), 2);
}

#[test]
fn undo_and_redo_multi_action_step() {
    let mut c = Canvas::blank();
    assert!(c.record_and_execute(Action::AddWire { from: p(0, 0), to: p(3, 0) }));
    assert!(c.record_and_execute(Action::AddWire { from: p(0, 5), to: p(3, 5) }));
    let w1 = c.find_wire(p(0, 0), p(3, 0), false, false).unwrap();
    let w2 = c.find_wire(p(0, 5), p(3, 5), false, false).unwrap();
    c.select(Some(ElemIndex::Wire(w1)));
    c.select(Some(ElemIndex::Wire(w2)));
    c.delete_selection();
    assert_eq!(c.wires.wires.len(), 0);
    assert!(c.undo());
    assert_eq!(c.wires.wires.len(), 2);
    assert!(c.find_wire(p(0, 0), p(3, 0), false, false).is_some());
    assert!(c.find_wire(p(0, 5), p(3, 5), false, false).is_some());
    assert!(c.redo());
    assert_eq!(c.wires.wires.len(), 0);
}

#[test]
fn add_comp_places_owned_nodes() {
    let mut c = Canvas::blank();
    let id0 = c.compid;
    assert!(c.execute_action(Action::AddComp { to: p(3, 4), kind: CompKind::AndGate }));
    assert_eq!(c.compid, id0 + 1);
    let k = c.comps.keys()[0];
    let comp = c.comps.get(k).unwrap();
    assert_eq!(comp.id, id0);
    assert!(!comp.selected);
    assert!(comp.move_request.is_none());
    let (templates, _) = CompKind::AndGate.nodes();
    assert_eq!(comp.nodes.len(), templates.len());
    for (i, nk) in comp.nodes.iter().enumerate() {
        let n = c.nodes.node_storage.get(*nk).unwrap();
        assert_eq!((n.pos.x, n.pos.y), (templates[i].pos.x + 3, templates[i].pos.y + 4));
        assert_eq!(n.owner, Some(ElemIndex::Comp(k)));
    }
}
