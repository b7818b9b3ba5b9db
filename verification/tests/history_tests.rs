use turiplogic::component::CompKind;
use turiplogic::geometry::IVec2;
use turiplogic::history::{Action, History};

#[test]
fn reverse_pairs() {
    let a = Action::AddComp { to: IVec2::new(1, 2), kind: CompKind::AndGate };
    assert_eq!(a.reverse(), Action::DeleteComp { at: IVec2::new(1, 2), kind: CompKind::AndGate });
    assert_eq!(a.reverse().reverse(), a);
    let m = Action::MoveWire { from: IVec2::new(0, 0), to: IVec2::new(3, 0), by: IVec2::new(1, -2) };
    assert_eq!(m.reverse(), Action::MoveWire { from: IVec2::new(1, -2), to: IVec2::new(4, -2), by: IVec2::new(-1, 2) });
    assert_eq!(m.reverse().reverse(), m);
    let o = Action::OverwriteWire { oldstart: IVec2::new(0, 0), oldend: IVec2::new(1, 0), newstart: IVec2::new(0, 0), newend: IVec2::new(5, 0) };
    assert_eq!(o.reverse(), Action::OverwriteWire { oldstart: IVec2::new(0, 0), oldend: IVec2::new(5, 0), newstart: IVec2::new(0, 0), newend: IVec2::new(1, 0) });
    let mc = Action::MoveComp { from: IVec2::new(0, 0), to: IVec2::new(2, 2) };
    assert_eq!(mc.reverse(), Action::MoveComp { from: IVec2::new(2, 2), to: IVec2::new(0, 0) });
    let w = Action::AddWire { from: IVec2::new(0, 0), to: IVec2::new(2, 2) };
    assert_eq!(w.reverse(), Action::DeleteWire { from: IVec2::new(0, 0), to: IVec2::new(2, 2) });
}

#[test]
fn range_check() {
    assert!(Action::AddWire { from: IVec2::new(0, 0), to: IVec2::new(2, 2) }.check_in_range());
    assert!(!Action::AddWire { from: IVec2::new(0, 0), to: IVec2::new(16777217, 2) }.check_in_range());
    assert!(!Action::MoveWire { from: IVec2::new(16777216, 0), to: IVec2::new(0, 0), by: IVec2::new(1, 0) }.check_in_range());
}

fn a(x: i32) -> Action {
    Action::AddWire { from: IVec2::new(x, 0), to: IVec2::new(x, 1) }
}

#[test]
fn record_and_step() {
    let mut h = History::new();
    assert_eq!(h.step_back(), None);
    h.start();
    h.record(a(1));
    h.record(a(2));
    h.end();
    assert_eq!(h.cursor, 1);
    h.start();
    h.record(a(3));
    h.end();
    assert_eq!(h.cursor, 2);
    assert_eq!(h.records.len(), 2);
    assert_eq!(h.step_back(), Some(vec![a(3)]));
    assert_eq!(h.cursor, 1);
    assert_eq!(h.step_back(), Some(vec![a(1), a(2)]));
    assert_eq!(h.step_back(), None);
    assert_eq!(h.step_forward(), Some(vec![a(1), a(2)]));
    assert_eq!(h.cursor, 1);
    assert_eq!(h.step_forward(), Some(vec![a(3)]));
    assert_eq!(h.step_forward(), None);
    assert_eq!(h.cursor, 2);
}

#[test]
fn recording_after_undo_drops_redo() {
    let mut h = History::new();
    for x in 0..3 {
        h.start();
        h.record(a(x));
        h.end();
    }
    let _ = h.step_back();
    let _ = h.step_back();
    assert_eq!(h.cursor, 1);
    h.start();
    assert_eq!(h.records.len(), 2);
    h.record(a(9));
    h.end();
    assert_eq!(h.cursor, 2);
    assert_eq!(h.records[1].actions, vec![a(1), a(9)]);
    assert_eq!(h.step_forward(), None);
}
