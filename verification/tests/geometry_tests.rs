use turiplogic::geometry::{IVec2, check};
use turiplogic::wires::{Wire, route};
use turiplogic::component::{CompKind, ShapeElement};

#[test]
fn lookup_keys_differ() {
    let a = IVec2::new(1, 2).lookup_key();
    let b = IVec2::new(2, 1).lookup_key();
    let c = IVec2::new(-1, 2).lookup_key();
    assert_ne!(a, b);
    assert_ne!(a, c);
    assert_eq!(a, IVec2::new(1, 2).lookup_key());
    assert_eq!(IVec2::new(0, 0).lookup_key(), 0x8000_0000_8000_0000);
}

#[test]
fn checked_plus_limits() {
    let p = IVec2::new(16777216, 0);
    assert_eq!(p.checked_plus(IVec2::new(0, 5)), Some(IVec2::new(16777216, 5)));
    assert_eq!(p.checked_plus(IVec2::new(1, 0)), None);
}

#[test]
fn touches_inside_only() {
    let w = Wire::skeleton(IVec2::new(0, 0), IVec2::new(4, 0));
    assert!(w.touches(IVec2::new(2, 0)));
    assert!(!w.touches(IVec2::new(0, 0)));
    assert!(!w.touches(IVec2::new(4, 0)));
    assert!(!w.touches(IVec2::new(5, 0)));
    assert!(!w.touches(IVec2::new(-1, 0)));
    assert!(!w.touches(IVec2::new(2, 1)));
    let d = Wire::skeleton(IVec2::new(0, 0), IVec2::new(2, 2));
    assert!(d.touches(IVec2::new(1, 1)));
    let r = Wire::skeleton(IVec2::new(4, 0), IVec2::new(0, 0));
    assert!(r.touches(IVec2::new(3, 0)));
}

#[test]
fn split_wire() {
    let mut w = Wire::skeleton(IVec2::new(0, 0), IVec2::new(4, 0));
    let rest = w.split(IVec2::new(1, 0));
    assert_eq!(w.start, IVec2::new(0, 0));
    assert_eq!(w.end, IVec2::new(1, 0));
    assert_eq!(rest, Wire::skeleton(IVec2::new(1, 0), IVec2::new(4, 0)));
}

#[test]
fn route_legs() {
    let (a, b, h) = route(IVec2::new(0, 0), IVec2::new(3, 2), true);
    assert_eq!(a, Wire::skeleton(IVec2::new(0, 0), IVec2::new(3, 0)));
    assert_eq!(b, Wire::skeleton(IVec2::new(3, 0), IVec2::new(3, 2)));
    assert!(h);
    let (a, b, h) = route(IVec2::new(0, 0), IVec2::new(3, 2), false);
    assert_eq!(a, Wire::skeleton(IVec2::new(0, 0), IVec2::new(0, 2)));
    assert_eq!(b, Wire::skeleton(IVec2::new(0, 2), IVec2::new(3, 2)));
    assert!(!h);
    let (_, _, h) = route(IVec2::new(0, 0), IVec2::new(0, 2), true);
    assert!(!h);
}

#[test]
fn hitboxes() {
    assert_eq!(CompKind::AndGate.hitbox(), IVec2::new(4, 4));
    assert_eq!(CompKind::OrGate.hitbox(), IVec2::new(5, 4));
    assert_eq!(CompKind::NandGate.hitbox(), IVec2::new(5, 4));
    assert_eq!(CompKind::XorGate.hitbox(), IVec2::new(5, 4));
    assert_eq!(CompKind::Input { state: true }.hitbox(), IVec2::new(2, 2));
}

#[test]
fn shapes() {
    let and = CompKind::AndGate.shape();
    assert_eq!(and[0], ShapeElement::Bezier(IVec2::new(2000, 4000), IVec2::new(4670, 4000), IVec2::new(4670, 0), IVec2::new(2000, 0)));
    assert_eq!(and[4], ShapeElement::Nop);
    let or = CompKind::OrGate.shape();
    assert_eq!(or[3], ShapeElement::Line(IVec2::new(231, 4000), IVec2::new(2000, 4000)));
    let xor = CompKind::XorGate.shape();
    assert_eq!(xor[5], ShapeElement::Line(IVec2::new(931, 0), IVec2::new(2000, 0)));
    let nand = CompKind::NandGate.shape();
    assert_eq!(nand[4], ShapeElement::Circle(IVec2::new(4500, 2000)));
    let input = CompKind::Input { state: false }.shape();
    assert_eq!(input[1], ShapeElement::Line(IVec2::new(2000, 0), IVec2::new(2000, 2000)));
}

#[test]
fn node_templates() {
    let (ns, outs) = CompKind::AndGate.nodes();
    assert_eq!(outs, 1);
    assert_eq!(ns.len(), 3);
    assert_eq!(ns[0].pos, IVec2::new(4, 2));
    assert!(ns[0].output);
    assert_eq!(ns[1].pos, IVec2::new(0, 1));
    assert!(!ns[1].output);
    let (ns, _) = CompKind::Input { state: false }.nodes();
    assert_eq!(ns.len(), 1);
    assert_eq!(ns[0].pos, IVec2::new(2, 1));
    assert_eq!(ns[0].logic_lvl, turiplogic::logic::LL::L);
}

#[test]
fn box_check_edges() {
    let lo = IVec2::new(-2, 0);
    let hi = IVec2::new(3, 4);
    assert!(check(IVec2::new(-2, 0), lo, hi));
    assert!(check(IVec2::new(3, 4), lo, hi));
    assert!(check(IVec2::new(0, 2), lo, hi));
    assert!(!check(IVec2::new(4, 2), lo, hi));
    assert!(!check(IVec2::new(0, -1), lo, hi));
    assert!(!check(IVec2::new(0, 0), hi, lo));
}
