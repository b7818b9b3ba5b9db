use turiplogic::arena::{CompArena, WireKey};
use turiplogic::geometry::IVec2;
use turiplogic::logic::LL;
use turiplogic::nodes::{check_driven, set_nodes, ElemIndex, Node, NodeHandler};
use turiplogic::wires::{Wire, Wires};

fn node(x: i32, y: i32, l: LL, owner: u32) -> Node {
    Node {
        pos: IVec2::new(x, y),
        owner: Some(ElemIndex::Wire(WireKey { slot: owner as usize, gen: 1 })),
        logic_lvl: l,
        generation: 0,
        output: false,
    }
}

#[test]
fn add_count_query() {
    let mut h = NodeHandler::new();
    assert_eq!(h.count_nodes(IVec2::new(1, 1)), 0);
    assert_eq!(h.query_node(IVec2::new(1, 1)), LL::U);
    let a = h.add_node(node(1, 1, LL::U, 0));
    let b = h.add_node(node(1, 1, LL::H, 1));
    assert_ne!(a, b);
    assert_eq!(h.count_nodes(IVec2::new(1, 1)), 2);
    assert_eq!(h.query_node(IVec2::new(1, 1)), LL::H);
    assert_eq!(h.node_storage.get(a).unwrap().logic_lvl, LL::H);
    let _c = h.add_node(node(2, 1, LL::L, 2));
    assert_eq!(h.count_nodes(IVec2::new(2, 1)), 1);
    assert_eq!(h.node_storage.len(), 3);
}

#[test]
fn remove_by_owner() {
    let mut h = NodeHandler::new();
    let _a = h.add_node(node(1, 1, LL::L, 0));
    let b = h.add_node(node(1, 1, LL::L, 1));
    assert!(h.owned_at(IVec2::new(1, 1), ElemIndex::Wire(WireKey { slot: 0, gen: 1 })));
    let removed = h.remove_node(IVec2::new(1, 1), ElemIndex::Wire(WireKey { slot: 0, gen: 1 }));
    assert_eq!(removed.owner, Some(ElemIndex::Wire(WireKey { slot: 0, gen: 1 })));
    assert_eq!(h.count_nodes(IVec2::new(1, 1)), 1);
    assert!(h.node_storage.get(b).is_some());
    assert!(!h.owned_at(IVec2::new(1, 1), ElemIndex::Wire(WireKey { slot: 0, gen: 1 })));
    let _ = h.remove_node(IVec2::new(1, 1), ElemIndex::Wire(WireKey { slot: 1, gen: 1 }));
    assert_eq!(h.count_nodes(IVec2::new(1, 1)), 0);
    assert_eq!(h.node_storage.len(), 0);
}

#[test]
fn conflicts_detected() {
    let mut h = NodeHandler::new();
    let _ = h.add_node(node(0, 0, LL::H, 0));
    assert!(h.conflict_free(IVec2::new(0, 0), LL::H));
    assert!(h.conflict_free(IVec2::new(0, 0), LL::U));
    assert!(!h.conflict_free(IVec2::new(0, 0), LL::L));
    assert!(h.conflict_free(IVec2::new(5, 0), LL::L));
}

#[test]
fn try_add_tidies_wires() {
    let mut ws = Wires::new();
    let mut nodes = NodeHandler::new();
    ws.try_add(Wire::skeleton(IVec2::new(0, 0), IVec2::new(4, 0)), &mut nodes);
    assert_eq!(ws.wires.len(), 1);
    assert_eq!(nodes.count_nodes(IVec2::new(0, 0)), 1);
    // covered by the first wire: nothing is added
    ws.try_add(Wire::skeleton(IVec2::new(1, 0), IVec2::new(3, 0)), &mut nodes);
    assert_eq!(ws.wires.len(), 1);
    // an end inside the first wire cuts it there; the cut keeps its end node
    ws.try_add(Wire::skeleton(IVec2::new(2, 0), IVec2::new(2, 5)), &mut nodes);
    assert_eq!(ws.wires.len(), 3);
    assert_eq!(nodes.count_nodes(IVec2::new(2, 0)), 2);
    assert_eq!(nodes.count_nodes(IVec2::new(4, 0)), 2);
    assert_eq!(nodes.count_nodes(IVec2::new(2, 5)), 1);
}

#[test]
fn try_add_cuts_crossed_wire_at_junction() {
    let mut ws = Wires::new();
    let mut nodes = NodeHandler::new();
    ws.try_add(Wire::skeleton(IVec2::new(0, 0), IVec2::new(4, 0)), &mut nodes);
    ws.try_add(Wire::skeleton(IVec2::new(2, 0), IVec2::new(2, 3)), &mut nodes);
    let mut ends: Vec<(i32, i32, i32, i32)> = Vec::new();
    for k in ws.wires.keys() {
        let w = ws.wires.get(k).unwrap();
        ends.push((w.start.x, w.start.y, w.end.x, w.end.y));
    }
    ends.sort();
    assert_eq!(ends, vec![(0, 0, 2, 0), (2, 0, 2, 3), (2, 0, 4, 0)]);
}

#[test]
fn try_add_inside_existing_wire_changes_nothing() {
    let mut ws = Wires::new();
    let mut nodes = NodeHandler::new();
    ws.try_add(Wire::skeleton(IVec2::new(0, 0), IVec2::new(8, 0)), &mut nodes);
    let k = ws.wires.keys()[0];
    ws.try_add(Wire::skeleton(IVec2::new(2, 0), IVec2::new(4, 0)), &mut nodes);
    assert_eq!(ws.wires.len(), 1);
    let w = ws.wires.get(k).unwrap();
    assert_eq!((w.start.x, w.start.y, w.end.x, w.end.y), (0, 0, 8, 0));
    assert_eq!(nodes.count_nodes(IVec2::new(2, 0)), 0);
    assert_eq!(nodes.count_nodes(IVec2::new(0, 0)), 1);
    assert_eq!(nodes.count_nodes(IVec2::new(8, 0)), 1);
}

#[test]
fn set_nodes_reaches_whole_net() {
    let mut ws = Wires::new();
    let mut nodes = NodeHandler::new();
    let comps = CompArena::new();
    ws.try_add(Wire::skeleton(IVec2::new(0, 0), IVec2::new(4, 0)), &mut nodes);
    ws.try_add(Wire::skeleton(IVec2::new(4, 0), IVec2::new(4, 4)), &mut nodes);
    ws.try_add(Wire::skeleton(IVec2::new(4, 4), IVec2::new(9, 4)), &mut nodes);
    let mut generation: u32 = 7;
    set_nodes(&mut nodes, &ws, &comps, IVec2::new(0, 0), &mut generation, LL::H, true);
    assert_eq!(generation, 8);
    assert_eq!(nodes.query_node(IVec2::new(4, 0)), LL::H);
    assert_eq!(nodes.query_node(IVec2::new(4, 4)), LL::H);
    assert_eq!(nodes.query_node(IVec2::new(9, 4)), LL::H);
    // nothing drives this net
    assert!(!check_driven(&mut nodes, &ws, &comps, IVec2::new(9, 4), &mut generation, true));
    set_nodes(&mut nodes, &ws, &comps, IVec2::new(9, 4), &mut generation, LL::U, true);
    assert_eq!(nodes.query_node(IVec2::new(0, 0)), LL::U);
}

#[test]
fn finished_legs_drop_points() {
    let w1 = Wire::skeleton(IVec2::new(0, 0), IVec2::new(0, 0));
    let w2 = Wire::skeleton(IVec2::new(0, 0), IVec2::new(0, 3));
    let (a, b) = turiplogic::wires::finished_legs(w1, w2, true);
    assert!(a.is_none());
    assert_eq!(b.map(|w| (w.end.x, w.end.y)), Some((0, 3)));
    let (a, b) = turiplogic::wires::finished_legs(w1, w2, false);
    assert!(a.is_none() && b.is_none());
}

#[test]
fn try_add_gives_up_on_connected_inner_wire() {
    let mut ws = Wires::new();
    let mut nodes = NodeHandler::new();
    ws.try_add(Wire::skeleton(IVec2::new(2, 0), IVec2::new(4, 0)), &mut nodes);
    ws.try_add(Wire::skeleton(IVec2::new(2, 0), IVec2::new(2, 3)), &mut nodes);
    assert_eq!(ws.wires.len(), 2);
    assert_eq!(nodes.count_nodes(IVec2::new(2, 0)), 2);
    ws.try_add(Wire::skeleton(IVec2::new(0, 0), IVec2::new(8, 0)), &mut nodes);
    assert_eq!(ws.wires.len(), 2);
    let mut ends: Vec<(i32, i32, i32, i32)> = Vec::new();
    for k in ws.wires.keys() {
        let w = ws.wires.get(k).unwrap();
        ends.push((w.start.x, w.start.y, w.end.x, w.end.y));
    }
    ends.sort();
    assert_eq!(ends, vec![(2, 0, 2, 3), (2, 0, 4, 0)]);
    assert_eq!(nodes.count_nodes(IVec2::new(0, 0)), 0);
    assert_eq!(nodes.count_nodes(IVec2::new(8, 0)), 0);
}
