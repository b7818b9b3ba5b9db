//! Components: logic gates and inputs.
use vstd::prelude::*;
use crate::arena::{NodeKey, CompArena, CompKey, comp_slots};
use crate::geometry::{IVec2, vadd, mk, pair_in_range, as_pair, key_of};
use crate::logic::{LL, spec_and, spec_or, spec_xor, spec_not, spec_from_bool, conflicts};
use crate::wires::{remove_owned_and_settle, taken, taken_by_any};
use crate::nodes::{Node, NodeHandler, ElemIndex, bump, pass_step, propagate, unmarked, comp_nodes_stored, touched};
use crate::wires::Wires;

verus! {

/// The kinds of component.
#[derive(PartialEq, Eq, Structural, Debug, Clone, Copy)]
pub enum CompKind {
    AndGate,
    OrGate,
    NandGate,
    XorGate,
    Input { state: bool },
}

/// One stroke of a component's outline. Points are in thousandths of a
/// grid cell, relative to the component's position.
#[derive(PartialEq, Eq, Structural, Debug, Clone, Copy)]
pub enum ShapeElement {
    Line(IVec2, IVec2),
    Bezier(IVec2, IVec2, IVec2, IVec2),
    Circle(IVec2),
    Nop,
}

/// Thousandths of a grid cell per grid cell.
pub const SHAPE_SCALE: i32 = 1000;

/// A shape point (in thousandths of a cell).
pub open spec fn sp(x: int, y: int) -> IVec2 {
    IVec2 { x: x as i32, y: y as i32 }
}

/// The shift that puts an OR-style input curve on the grid.
pub open spec fn or_offset() -> IVec2 {
    sp(231, 0)
}

/// The extra shift of the XOR gate's second input curve.
pub open spec fn shield_offset() -> IVec2 {
    sp(700, 0)
}

/// The sum of two shape points.
pub open spec fn spec_ca(a: IVec2, b: IVec2) -> IVec2 {
    sp(a.x + b.x, a.y + b.y)
}

/// The sum of three shape points.
pub open spec fn spec_ca2(a: IVec2, b: IVec2, c: IVec2) -> IVec2 {
    sp(a.x + b.x + c.x, a.y + b.y + c.y)
}

/// Shape points are small: within 8 cells of the component.
pub open spec fn small(p: IVec2) -> bool {
    -8000 <= p.x <= 8000 && -8000 <= p.y <= 8000
}

/// The sum of two shape points.
pub fn ca(a: IVec2, b: IVec2) -> (r: IVec2)
    requires
        small(a),
        small(b),
    ensures
        r == spec_ca(a, b),
{
    IVec2 { x: a.x + b.x, y: a.y + b.y }
}

/// The sum of three shape points.
pub fn ca2(a: IVec2, b: IVec2, c: IVec2) -> (r: IVec2)
    requires
        small(a),
        small(b),
        small(c),
    ensures
        r == spec_ca2(a, b, c),
{
    IVec2 { x: a.x + b.x + c.x, y: a.y + b.y + c.y }
}

/// The outline of each kind of component: six strokes (`Nop` pads).
pub open spec fn spec_shape(kind: CompKind) -> Seq<ShapeElement> {
    match kind {
        CompKind::AndGate => seq![
            ShapeElement::Bezier(sp(2000, 4000), sp(4670, 4000), sp(4670, 0), sp(2000, 0)),
            ShapeElement::Line(sp(0, 4000), sp(2000, 4000)),
            ShapeElement::Line(sp(0, 0), sp(2000, 0)),
            ShapeElement::Line(sp(0, 4000), sp(0, 0)),
            ShapeElement::Nop,
            ShapeElement::Nop,
        ],
        CompKind::OrGate => seq![
            ShapeElement::Bezier(sp(2000, 4000), sp(4500, 4000), sp(5000, 2000), sp(5000, 2000)),
            ShapeElement::Bezier(sp(2000, 0), sp(4500, 0), sp(5000, 2000), sp(5000, 2000)),
            ShapeElement::Bezier(
                spec_ca(sp(0, 0), or_offset()),
                spec_ca(sp(1300, 1000), or_offset()),
                spec_ca(sp(1300, 3000), or_offset()),
                spec_ca(sp(0, 4000), or_offset()),
            ),
            ShapeElement::Line(spec_ca(sp(0, 4000), or_offset()), sp(2000, 4000)),
            ShapeElement::Line(spec_ca(sp(0, 0), or_offset()), sp(2000, 0)),
            ShapeElement::Nop,
        ],
        CompKind::NandGate => seq![
            ShapeElement::Bezier(sp(2000, 4000), sp(4670, 4000), sp(4670, 0), sp(2000, 0)),
            ShapeElement::Line(sp(0, 4000), sp(2000, 4000)),
            ShapeElement::Line(sp(0, 0), sp(2000, 0)),
            ShapeElement::Line(sp(0, 4000), sp(0, 0)),
            ShapeElement::Circle(sp(4500, 2000)),
            ShapeElement::Nop,
        ],
        CompKind::XorGate => seq![
            ShapeElement::Bezier(sp(2000, 4000), sp(4500, 4000), sp(5000, 2000), sp(5000, 2000)),
            ShapeElement::Bezier(sp(2000, 0), sp(4500, 0), sp(5000, 2000), sp(5000, 2000)),
            ShapeElement::Bezier(
                spec_ca2(sp(0, 0), or_offset(), shield_offset()),
                spec_ca2(sp(1300, 1000), or_offset(), shield_offset()),
                spec_ca2(sp(1300, 3000), or_offset(), shield_offset()),
                spec_ca2(sp(0, 4000), or_offset(), shield_offset()),
            ),
            ShapeElement::Bezier(
                spec_ca(sp(0, 0), or_offset()),
                spec_ca(sp(1300, 1000), or_offset()),
                spec_ca(sp(1300, 3000), or_offset()),
                spec_ca(sp(0, 4000), or_offset()),
            ),
            ShapeElement::Line(spec_ca2(sp(0, 4000), or_offset(), shield_offset()), sp(2000, 4000)),
            ShapeElement::Line(spec_ca2(sp(0, 0), or_offset(), shield_offset()), sp(2000, 0)),
        ],
        CompKind::Input { state: _ } => seq![
            ShapeElement::Line(sp(0, 0), sp(2000, 0)),
            ShapeElement::Line(sp(2000, 0), sp(2000, 2000)),
            ShapeElement::Line(sp(2000, 2000), sp(0, 2000)),
            ShapeElement::Line(sp(0, 2000), sp(0, 0)),
            ShapeElement::Nop,
            ShapeElement::Nop,
        ],
    }
}

/// The size (in grid cells) of the area a component occupies.
pub open spec fn spec_hitbox(kind: CompKind) -> IVec2 {
    match kind {
        CompKind::AndGate => IVec2 { x: 4, y: 4 },
        CompKind::OrGate => IVec2 { x: 5, y: 4 },
        CompKind::NandGate => IVec2 { x: 5, y: 4 },
        CompKind::XorGate => IVec2 { x: 5, y: 4 },
        CompKind::Input { state: _ } => IVec2 { x: 2, y: 2 },
    }
}

/// The nodes of each kind of component, relative to its position: the
/// output first. A gate's nodes start undefined; an input's output starts
/// low.
pub open spec fn spec_templates(kind: CompKind) -> Seq<Node> {
    match kind {
        CompKind::AndGate => seq![
            template(4, 2, LL::U, true),
            template(0, 1, LL::U, false),
            template(0, 3, LL::U, false),
        ],
        CompKind::OrGate => seq![
            template(5, 2, LL::U, true),
            template(1, 1, LL::U, false),
            template(1, 3, LL::U, false),
        ],
        CompKind::NandGate => seq![
            template(5, 2, LL::U, true),
            template(0, 1, LL::U, false),
            template(0, 3, LL::U, false),
        ],
        CompKind::XorGate => seq![
            template(5, 2, LL::U, true),
            template(1, 1, LL::U, false),
            template(1, 3, LL::U, false),
        ],
        CompKind::Input { state: _ } => seq![template(2, 1, LL::L, true)],
    }
}

/// A free-standing node at `(x, y)`.
pub open spec fn template(x: i32, y: i32, l: LL, output: bool) -> Node {
    Node { pos: IVec2 { x, y }, owner: None, logic_lvl: l, generation: 0, output }
}

fn mk_template(x: i32, y: i32, l: LL, output: bool) -> (n: Node)
    ensures
        n == template(x, y, l, output),
{
    Node { pos: IVec2 { x, y }, owner: None, logic_lvl: l, generation: 0, output }
}

impl CompKind {
    /// The outline of this kind of component.
    pub fn shape(&self) -> (s: [ShapeElement; 6])
        ensures
            s@ == spec_shape(*self),
    {
        let or_off = IVec2::new(231, 0);
        let shield = IVec2::new(700, 0);
        let s = match self {
            CompKind::AndGate => [
                ShapeElement::Bezier(IVec2::new(2000, 4000), IVec2::new(4670, 4000), IVec2::new(4670, 0), IVec2::new(2000, 0)),
                ShapeElement::Line(IVec2::new(0, 4000), IVec2::new(2000, 4000)),
                ShapeElement::Line(IVec2::new(0, 0), IVec2::new(2000, 0)),
                ShapeElement::Line(IVec2::new(0, 4000), IVec2::new(0, 0)),
                ShapeElement::Nop,
                ShapeElement::Nop,
            ],
            CompKind::OrGate => [
                ShapeElement::Bezier(IVec2::new(2000, 4000), IVec2::new(4500, 4000), IVec2::new(5000, 2000), IVec2::new(5000, 2000)),
                ShapeElement::Bezier(IVec2::new(2000, 0), IVec2::new(4500, 0), IVec2::new(5000, 2000), IVec2::new(5000, 2000)),
                ShapeElement::Bezier(
                    ca(IVec2::new(0, 0), or_off),
                    ca(IVec2::new(1300, 1000), or_off),
                    ca(IVec2::new(1300, 3000), or_off),
                    ca(IVec2::new(0, 4000), or_off),
                ),
                ShapeElement::Line(ca(IVec2::new(0, 4000), or_off), IVec2::new(2000, 4000)),
                ShapeElement::Line(ca(IVec2::new(0, 0), or_off), IVec2::new(2000, 0)),
                ShapeElement::Nop,
            ],
            CompKind::NandGate => [
                ShapeElement::Bezier(IVec2::new(2000, 4000), IVec2::new(4670, 4000), IVec2::new(4670, 0), IVec2::new(2000, 0)),
                ShapeElement::Line(IVec2::new(0, 4000), IVec2::new(2000, 4000)),
                ShapeElement::Line(IVec2::new(0, 0), IVec2::new(2000, 0)),
                ShapeElement::Line(IVec2::new(0, 4000), IVec2::new(0, 0)),
                ShapeElement::Circle(IVec2::new(4500, 2000)),
                ShapeElement::Nop,
            ],
            CompKind::XorGate => [
                ShapeElement::Bezier(IVec2::new(2000, 4000), IVec2::new(4500, 4000), IVec2::new(5000, 2000), IVec2::new(5000, 2000)),
                ShapeElement::Bezier(IVec2::new(2000, 0), IVec2::new(4500, 0), IVec2::new(5000, 2000), IVec2::new(5000, 2000)),
                ShapeElement::Bezier(
                    ca2(IVec2::new(0, 0), or_off, shield),
                    ca2(IVec2::new(1300, 1000), or_off, shield),
                    ca2(IVec2::new(1300, 3000), or_off, shield),
                    ca2(IVec2::new(0, 4000), or_off, shield),
                ),
                ShapeElement::Bezier(
                    ca(IVec2::new(0, 0), or_off),
                    ca(IVec2::new(1300, 1000), or_off),
                    ca(IVec2::new(1300, 3000), or_off),
                    ca(IVec2::new(0, 4000), or_off),
                ),
                ShapeElement::Line(ca2(IVec2::new(0, 4000), or_off, shield), IVec2::new(2000, 4000)),
                ShapeElement::Line(ca2(IVec2::new(0, 0), or_off, shield), IVec2::new(2000, 0)),
            ],
            CompKind::Input { state: _ } => [
                ShapeElement::Line(IVec2::new(0, 0), IVec2::new(2000, 0)),
                ShapeElement::Line(IVec2::new(2000, 0), IVec2::new(2000, 2000)),
                ShapeElement::Line(IVec2::new(2000, 2000), IVec2::new(0, 2000)),
                ShapeElement::Line(IVec2::new(0, 2000), IVec2::new(0, 0)),
                ShapeElement::Nop,
                ShapeElement::Nop,
            ],
        };
        assert(s@ =~= spec_shape(*self));
        s
    }

    /// The size of the area this kind of component occupies.
    pub fn hitbox(&self) -> (h: IVec2)
        ensures
            h == spec_hitbox(*self),
    {
        match self {
            CompKind::AndGate => IVec2::new(4, 4),
            CompKind::OrGate => IVec2::new(5, 4),
            CompKind::NandGate => IVec2::new(5, 4),
            CompKind::XorGate => IVec2::new(5, 4),
            CompKind::Input { state: _ } => IVec2::new(2, 2),
        }
    }

    /// The nodes of this kind of component (relative to its position, the
    /// output first), and how many of them are outputs.
    pub fn nodes(&self) -> (r: (Vec<Node>, usize))
        ensures
            r.0@ == spec_templates(*self),
            r.1 == 1,
    {
        let v = match self {
            CompKind::AndGate => vec![
                mk_template(4, 2, LL::U, true),
                mk_template(0, 1, LL::U, false),
                mk_template(0, 3, LL::U, false),
            ],
            CompKind::OrGate => vec![
                mk_template(5, 2, LL::U, true),
                mk_template(1, 1, LL::U, false),
                mk_template(1, 3, LL::U, false),
            ],
            CompKind::NandGate => vec![
                mk_template(5, 2, LL::U, true),
                mk_template(0, 1, LL::U, false),
                mk_template(0, 3, LL::U, false),
            ],
            CompKind::XorGate => vec![
                mk_template(5, 2, LL::U, true),
                mk_template(1, 1, LL::U, false),
                mk_template(1, 3, LL::U, false),
            ],
            CompKind::Input { state: _ } => vec![mk_template(2, 1, LL::L, true)],
        };
        assert(v@ =~= spec_templates(*self));
        (v, 1)
    }
}

/// A component placed on the canvas.
pub struct Component {
    pub kind: CompKind,
    pub pos: IVec2,
    pub nodes: Vec<NodeKey>,
    pub id: u64,
    pub move_request: Option<IVec2>,
    pub selected: bool,
}


/// The combined level of the inputs `ins`, with `op` applied left to right.
pub open spec fn fold_levels(ins: Seq<LL>, op: spec_fn(LL, LL) -> LL) -> LL
    decreases ins.len(),
{
    if ins.len() <= 1 {
        ins[0]
    } else {
        op(fold_levels(ins.drop_last(), op), ins.last())
    }
}

/// The operation a gate of kind `kind` applies to its inputs.
pub open spec fn kind_op(kind: CompKind) -> spec_fn(LL, LL) -> LL {
    match kind {
        CompKind::OrGate => |a: LL, b: LL| spec_or(a, b),
        CompKind::XorGate => |a: LL, b: LL| spec_xor(a, b),
        _ => |a: LL, b: LL| spec_and(a, b),
    }
}

/// The level a component of kind `kind` drives, given the levels of its
/// nodes (the output first, then the inputs).
pub open spec fn gate_output(kind: CompKind, levels: Seq<LL>) -> LL {
    let ins = levels.subrange(1, levels.len() as int);
    match kind {
        CompKind::NandGate => spec_not(fold_levels(ins, kind_op(kind))),
        CompKind::Input { state } => spec_from_bool(state),
        _ => fold_levels(ins, kind_op(kind)),
    }
}

/// What a two-input gate drives, given its output node's level `o` and
/// input levels `x` and `y`: with both inputs defined, an AND gate is high
/// exactly when both are high, an OR gate when either is, a NAND gate
/// unless both are, and an XOR gate when they differ; an undefined input
/// makes the output undefined. An input component drives its state.
pub proof fn lemma_two_input_gates(o: LL, x: LL, y: LL, state: bool)
    ensures
        x != LL::U && y != LL::U ==> {
            &&& gate_output(CompKind::AndGate, seq![o, x, y]) == (if x == LL::H && y == LL::H { LL::H } else { LL::L })
            &&& gate_output(CompKind::OrGate, seq![o, x, y]) == (if x == LL::H || y == LL::H { LL::H } else { LL::L })
            &&& gate_output(CompKind::NandGate, seq![o, x, y]) == (if x == LL::H && y == LL::H { LL::L } else { LL::H })
            &&& gate_output(CompKind::XorGate, seq![o, x, y]) == (if x != y { LL::H } else { LL::L })
        },
        x == LL::U || y == LL::U ==> {
            &&& gate_output(CompKind::AndGate, seq![o, x, y]) == LL::U
            &&& gate_output(CompKind::OrGate, seq![o, x, y]) == LL::U
            &&& gate_output(CompKind::NandGate, seq![o, x, y]) == LL::U
            &&& gate_output(CompKind::XorGate, seq![o, x, y]) == LL::U
        },
        gate_output(CompKind::Input { state }, seq![o]) == (if state { LL::H } else { LL::L }),
{
    let s = seq![o, x, y];
    let ins = s.subrange(1, 3);
    assert(ins =~= seq![x, y]);
    assert(ins.drop_last() =~= seq![x]);
    assert(fold_levels(ins.drop_last(), kind_op(CompKind::AndGate)) == x);
    assert(fold_levels(ins.drop_last(), kind_op(CompKind::OrGate)) == x);
    assert(fold_levels(ins.drop_last(), kind_op(CompKind::XorGate)) == x);
    assert(fold_levels(ins.drop_last(), kind_op(CompKind::NandGate)) == x);
}

/// The level of node `k`, or undefined if there is no such node.
pub open spec fn spec_level_of(nodes: NodeHandler, k: NodeKey) -> LL {
    if nodes.slots().contains_key(k) { nodes.slots()[k].logic_lvl } else { LL::U }
}

fn level_of(nodes: &NodeHandler, k: NodeKey) -> (l: LL)
    ensures
        l == spec_level_of(*nodes, k),
{
    match nodes.node_storage.get(k) {
        Some(n) => n.logic_lvl,
        None => LL::U,
    }
}

/// Every node of a `kind` component at `pos` lands on an admissible point.
pub open spec fn fits(kind: CompKind, pos: IVec2) -> bool {
    &&& pos.in_range()
    &&& forall|i: int| 0 <= i < spec_templates(kind).len()
        ==> pair_in_range(vadd(pos, #[trigger] spec_templates(kind)[i].pos))
}

/// A `kind` component can be placed at `pos` in `h` without its output
/// contradicting a level already on its point.
pub open spec fn placeable(kind: CompKind, pos: IVec2, h: NodeHandler) -> bool {
    let t = spec_templates(kind)[0];
    forall|i: int| 0 <= i < h.at(mk(vadd(pos, t.pos))).len()
        ==> !conflicts(#[trigger] h.slots()[h.at(mk(vadd(pos, t.pos)))[i]].logic_lvl, t.logic_lvl)
}

/// The component can be moved by `by`: its position and every node stay
/// admissible, its nodes are distinct, stored, and belong to `cidx`.
pub open spec fn comp_movable(c: Component, h: NodeHandler, cidx: CompKey, by: IVec2) -> bool {
    &&& pair_in_range(vadd(c.pos, by))
    &&& c.nodes@.no_duplicates()
    &&& forall|j: int| 0 <= j < c.nodes@.len() ==> {
        &&& h.slots().contains_key(#[trigger] c.nodes@[j])
        &&& h.slots()[c.nodes@[j]].owner == Some(ElemIndex::Comp(cidx))
        &&& pair_in_range(vadd(h.slots()[c.nodes@[j]].pos, by))
    }
}

/// Whether a `kind` component fits at `pos` (see `fits`).
pub fn check_fits(kind: CompKind, pos: IVec2) -> (r: bool)
    ensures
        r == fits(kind, pos),
{
    if !(-16777216 <= pos.x && pos.x <= 16777216 && -16777216 <= pos.y && pos.y <= 16777216) {
        return false;
    }
    let (ts, _) = kind.nodes();
    let mut i: usize = 0;
    while i < ts.len()
        invariant
            ts@ == spec_templates(kind),
            pos.in_range(),
            0 <= i <= ts@.len(),
            forall|j: int| 0 <= j < i ==> pair_in_range(vadd(pos, #[trigger] spec_templates(kind)[j].pos)),
        decreases ts@.len() - i,
    {
        proof {
            assert(ts@[i as int].pos.in_range());
        }
        match pos.checked_plus(ts[i].pos) {
            Some(_) => {},
            None => {
                return false;
            },
        }
        i = i + 1;
    }
    true
}

impl Component {
    /// A component of kind `kind` at `pos`, with its nodes stored in
    /// `nodes` (ownerless for now; see `Canvas::add_comp`).
    pub fn new(kind: CompKind, pos: IVec2, id: u64, nodes: &mut NodeHandler) -> (c: Component)
        requires
            old(nodes).wf(),
            fits(kind, pos),
            placeable(kind, pos, *old(nodes)),
        ensures
            final(nodes).wf(),
            c.kind == kind,
            c.pos == pos,
            c.id == id,
            c.move_request is None,
            !c.selected,
            c.nodes@.len() == spec_templates(kind).len(),
            c.nodes@.no_duplicates(),
            forall|i: int| 0 <= i < c.nodes@.len() ==> {
                &&& !old(nodes).slots().contains_key(#[trigger] c.nodes@[i])
                &&& final(nodes).slots().contains_key(c.nodes@[i])
                &&& final(nodes).slots()[c.nodes@[i]].pos == mk(vadd(pos, spec_templates(kind)[i].pos))
                &&& final(nodes).slots()[c.nodes@[i]].owner is None
                &&& final(nodes).slots()[c.nodes@[i]].output == spec_templates(kind)[i].output
            },
            final(nodes).slots().dom() == old(nodes).slots().dom() + c.nodes@.to_set(),
            forall|k: NodeKey| #[trigger] old(nodes).slots().contains_key(k) ==> {
                &&& final(nodes).slots()[k].pos == old(nodes).slots()[k].pos
                &&& final(nodes).slots()[k].owner == old(nodes).slots()[k].owner
                &&& final(nodes).slots()[k].output == old(nodes).slots()[k].output
            },
    {
        let (ts, _) = kind.nodes();
        let mut keys: Vec<NodeKey> = Vec::new();
        let mut i: usize = 0;
        while i < ts.len()
            invariant
                ts@ == spec_templates(kind),
                fits(kind, pos),
                placeable(kind, pos, *old(nodes)),
                nodes.wf(),
                0 <= i <= ts@.len(),
                keys@.len() == i,
                keys@.no_duplicates(),
                i == 0 ==> *nodes == *old(nodes),
                forall|j: int| 0 <= j < i ==> {
                    &&& !old(nodes).slots().contains_key(#[trigger] keys@[j])
                    &&& nodes.slots().contains_key(keys@[j])
                    &&& nodes.slots()[keys@[j]].pos == mk(vadd(pos, spec_templates(kind)[j].pos))
                    &&& nodes.slots()[keys@[j]].owner is None
                    &&& nodes.slots()[keys@[j]].output == spec_templates(kind)[j].output
                },
                nodes.slots().dom() == old(nodes).slots().dom() + keys@.to_set(),
                forall|k: NodeKey| #[trigger] old(nodes).slots().contains_key(k) ==> {
                    &&& nodes.slots()[k].pos == old(nodes).slots()[k].pos
                    &&& nodes.slots()[k].owner == old(nodes).slots()[k].owner
                    &&& nodes.slots()[k].output == old(nodes).slots()[k].output
                },
            decreases ts@.len() - i,
        {
            let t = ts[i];
            proof {
                assert(t.pos.in_range());
                assert(pair_in_range(vadd(pos, spec_templates(kind)[i as int].pos)));
            }
            let p = pos.plus(t.pos);
            let ghost h0 = *nodes;
            let k = nodes.add_node(Node { pos: p, ..t });
            proof {
                assert forall|x: NodeKey| keys@.push(k).contains(x) <==> keys@.contains(x) || x == k by {
                    if keys@.contains(x) {
                        let j = choose|j: int| 0 <= j < keys@.len() && keys@[j] == x;
                        assert(keys@.push(k)[j] == x);
                    }
                    if x == k {
                        assert(keys@.push(k)[keys@.len() as int] == x);
                    }
                }
                assert(keys@.push(k).to_set() =~= keys@.to_set().insert(k));
                assert(!keys@.contains(k)) by {
                    if keys@.contains(k) {
                        let j = choose|j: int| 0 <= j < i && keys@[j] == k;
                        assert(h0.slots().contains_key(keys@[j]));
                    }
                }
                assert forall|j: int| 0 <= j < i implies nodes.slots()[#[trigger] keys@[j]].pos == h0.slots()[keys@[j]].pos
                    && nodes.slots()[keys@[j]].owner == h0.slots()[keys@[j]].owner
                    && nodes.slots()[keys@[j]].output == h0.slots()[keys@[j]].output by {
                    assert(h0.slots().contains_key(keys@[j]));
                }
                assert forall|kk: NodeKey| #[trigger] old(nodes).slots().contains_key(kk) implies
                    nodes.slots()[kk].pos == old(nodes).slots()[kk].pos
                    && nodes.slots()[kk].owner == old(nodes).slots()[kk].owner
                    && nodes.slots()[kk].output == old(nodes).slots()[kk].output by {
                    assert(h0.slots().contains_key(kk));
                }
            }
            keys.push(k);
            i = i + 1;
        }
        Component { kind, pos, nodes: keys, id, move_request: None, selected: false }
    }

    /// Moves the component and its nodes by `by`, node by node (each node
    /// move starts new passes that settle the nets it leaves and joins).
    /// Returns `false` and changes nothing when it cannot be moved (see
    /// `comp_movable`).
    pub fn move_by(
        &mut self,
        by: IVec2,
        nodes: &mut NodeHandler,
        cidx: CompKey,
        wires: &Wires,
        comps: &CompArena,
        generation: &mut u32,
    ) -> (moved: bool)
        requires
            old(nodes).wf(),
            by.in_range(),
            old(self).pos.in_range(),
        ensures
            final(nodes).wf(),
            moved == comp_movable(*old(self), *old(nodes), cidx, by),
            !moved ==> final(self).pos == old(self).pos && *final(nodes) == *old(nodes),
            !moved ==> *final(generation) == *old(generation),
            moved ==> final(self).pos == mk(vadd(old(self).pos, by)),
            final(self).kind == old(self).kind,
            final(self).nodes@ == old(self).nodes@,
            final(self).selected == old(self).selected,
            final(self).id == old(self).id,
            moved ==> final(nodes).slots().dom() == old(nodes).slots().dom(),
            moved ==> forall|i: int| 0 <= i < old(self).nodes@.len() ==>
                final(nodes).slots()[#[trigger] old(self).nodes@[i]].pos == mk(vadd(old(nodes).slots()[old(self).nodes@[i]].pos, by)),
    {
        let np = match self.pos.checked_plus(by) {
            Some(p) => p,
            None => {
                return false;
            },
        };
        let ghost s0 = nodes.slots();
        let ghost ks = self.nodes@;
        let mut i: usize = 0;
        while i < self.nodes.len()
            invariant
                ks == self.nodes@,
                s0 == nodes.slots(),
                nodes.wf(),
                *nodes == *old(nodes),
                *self == *old(self),
                *generation == *old(generation),
                np == mk(vadd(old(self).pos, by)),
                pair_in_range(vadd(old(self).pos, by)),
                by.in_range(),
                0 <= i <= ks.len(),
                forall|j: int| 0 <= j < i ==> {
                    &&& s0.contains_key(#[trigger] ks[j])
                    &&& s0[ks[j]].owner == Some(ElemIndex::Comp(cidx))
                    &&& pair_in_range(vadd(s0[ks[j]].pos, by))
                },
                forall|a: int, b: int| 0 <= a < b < i ==> ks[a] != ks[b],
            decreases ks.len() - i,
        {
            let k = self.nodes[i];
            let n = match nodes.node_storage.get(k) {
                Some(n) => *n,
                None => {
                    return false;
                },
            };
            if n.owner != Some(ElemIndex::Comp(cidx)) {
                return false;
            }
            proof {
                assert(n.pos.in_range());
            }
            match n.pos.checked_plus(by) {
                Some(_) => {},
                None => {
                    return false;
                },
            }
            let mut j: usize = 0;
            while j < i
                invariant
                    0 <= j <= i,
                    i < ks.len(),
                    ks == self.nodes@,
                    nodes.wf(),
                    *nodes == *old(nodes),
                    *self == *old(self),
                    *generation == *old(generation),
                    k == ks[i as int],
                    forall|x: int| 0 <= x < j ==> ks[x] != k,
                decreases i - j,
            {
                if self.nodes[j] == k {
                    return false;
                }
                j = j + 1;
            }
            i = i + 1;
        }
        proof {
            assert(ks.no_duplicates());
        }
        let mut i: usize = 0;
        while i < self.nodes.len()
            invariant
                ks == self.nodes@,
                ks.no_duplicates(),
                nodes.wf(),
                by.in_range(),
                0 <= i <= ks.len(),
                nodes.slots().dom() == s0.dom(),
                forall|j: int| 0 <= j < ks.len() ==> {
                    &&& s0.contains_key(#[trigger] ks[j])
                    &&& s0[ks[j]].owner == Some(ElemIndex::Comp(cidx))
                    &&& pair_in_range(vadd(s0[ks[j]].pos, by))
                },
                forall|k: NodeKey| #[trigger] s0.contains_key(k) ==> nodes.slots()[k].owner == s0[k].owner,
                forall|j: int| 0 <= j < i ==> nodes.slots()[#[trigger] ks[j]].pos == mk(vadd(s0[ks[j]].pos, by)),
                forall|j: int| i <= j < ks.len() ==> nodes.slots()[#[trigger] ks[j]].pos == s0[ks[j]].pos,
            decreases ks.len() - i,
        {
            let ghost h0 = *nodes;
            nodes.move_node(self.nodes[i], by, ElemIndex::Comp(cidx), wires, comps, generation);
            bump(generation);
            proof {
                assert forall|j: int| 0 <= j < ks.len() && j != i implies nodes.slots()[#[trigger] ks[j]].pos == h0.slots()[ks[j]].pos by {
                    assert(h0.slots().contains_key(ks[j]));
                }
            }
            i = i + 1;
        }
        self.pos = np;
        true
    }

    /// Clicking an input flips its state; other components ignore clicks.
    pub fn on_click(&mut self)
        ensures
            final(self).kind == (match old(self).kind {
                CompKind::Input { state } => CompKind::Input { state: !state },
                k => k,
            }),
            final(self).pos == old(self).pos,
            final(self).nodes@ == old(self).nodes@,
            final(self).id == old(self).id,
            final(self).selected == old(self).selected,
            final(self).move_request == old(self).move_request,
    {
        match self.kind {
            CompKind::Input { state } => {
                self.kind = CompKind::Input { state: !state };
            },
            _ => {},
        }
    }

    /// Takes out this component's nodes (those of component `cidx`), each
    /// followed by a new pass that leaves its net undefined unless
    /// something still drives it.
    pub fn remove_nodes(&self, nodes: &mut NodeHandler, cidx: CompKey, wires: &Wires, comps: &CompArena, generation: &mut u32)
        requires
            old(nodes).wf(),
        ensures
            final(nodes).wf(),
            forall|k: NodeKey| #[trigger] final(nodes).slots().contains_key(k) ==> old(nodes).slots().contains_key(k),
            forall|k: NodeKey| #[trigger] old(nodes).slots().contains_key(k)
                && old(nodes).slots()[k].owner != Some(ElemIndex::Comp(cidx))
                ==> final(nodes).slots().contains_key(k),
            forall|k: NodeKey| #[trigger] final(nodes).slots().contains_key(k) <==> old(nodes).slots().contains_key(k)
                && !taken_by_any(*old(nodes), self.nodes@, ElemIndex::Comp(cidx), k),
            forall|k: NodeKey| #[trigger] final(nodes).slots().contains_key(k) ==> {
                &&& final(nodes).slots()[k].owner == old(nodes).slots()[k].owner
                &&& final(nodes).slots()[k].pos == old(nodes).slots()[k].pos
                &&& final(nodes).slots()[k].output == old(nodes).slots()[k].output
            },
    {
        let o = ElemIndex::Comp(cidx);
        let ghost h0 = *old(nodes);
        let mut i: usize = 0;
        while i < self.nodes.len()
            invariant
                nodes.wf(),
                h0 == *old(nodes),
                o == ElemIndex::Comp(cidx),
                0 <= i <= self.nodes@.len(),
                forall|k: NodeKey| #[trigger] nodes.slots().contains_key(k) ==> old(nodes).slots().contains_key(k),
                forall|k: NodeKey| #[trigger] nodes.slots().contains_key(k) ==> {
                    &&& nodes.slots()[k].owner == old(nodes).slots()[k].owner
                    &&& nodes.slots()[k].pos == old(nodes).slots()[k].pos
                    &&& nodes.slots()[k].output == old(nodes).slots()[k].output
                },
                forall|k: NodeKey| #[trigger] old(nodes).slots().contains_key(k)
                    && old(nodes).slots()[k].owner != Some(ElemIndex::Comp(cidx))
                    ==> nodes.slots().contains_key(k),
                forall|k: NodeKey| #[trigger] nodes.slots().contains_key(k) <==> h0.slots().contains_key(k)
                    && !taken_by_any(h0, self.nodes@.subrange(0, i as int), o, k),
            decreases self.nodes@.len() - i,
        {
            let ghost q = self.nodes@[i as int];
            let ghost ks = self.nodes@.subrange(0, i as int);
            let ghost ks1 = self.nodes@.subrange(0, i + 1);
            proof {
                assert(ks1 =~= ks.push(q));
                assert forall|k: NodeKey| #[trigger] taken_by_any(h0, ks1, o, k)
                    == (taken_by_any(h0, ks, o, k) || (h0.slots().contains_key(q) && taken(h0, h0.slots()[q].pos, o, k))) by {
                    if taken_by_any(h0, ks1, o, k) {
                        let j = choose|j: int| 0 <= j < ks1.len() && h0.slots().contains_key(ks1[j])
                            && #[trigger] taken(h0, h0.slots()[ks1[j]].pos, o, k);
                        if j < ks.len() {
                            assert(ks1[j] == ks[j]);
                        }
                    }
                    if taken_by_any(h0, ks, o, k) {
                        let j = choose|j: int| 0 <= j < ks.len() && h0.slots().contains_key(ks[j])
                            && #[trigger] taken(h0, h0.slots()[ks[j]].pos, o, k);
                        assert(ks1[j] == ks[j]);
                    }
                    if h0.slots().contains_key(q) && taken(h0, h0.slots()[q].pos, o, k) {
                        assert(ks1[ks.len() as int] == q);
                    }
                }
            }
            let pos = match nodes.node_storage.get(self.nodes[i]) {
                Some(n) => n.pos,
                None => {
                    proof {
                        if h0.slots().contains_key(q) {
                            assert(taken_by_any(h0, ks, o, q));
                            let j = choose|j: int| 0 <= j < ks.len() && h0.slots().contains_key(ks[j])
                                && #[trigger] taken(h0, h0.slots()[ks[j]].pos, o, q);
                            assert(h0.slots()[q].pos == h0.slots()[ks[j]].pos);
                            assert forall|k: NodeKey| #[trigger] taken(h0, h0.slots()[q].pos, o, k)
                                implies taken_by_any(h0, ks, o, k) by {
                                assert(taken(h0, h0.slots()[ks[j]].pos, o, k));
                            }
                        }
                    }
                    i = i + 1;
                    continue;
                },
            };
            let ghost h1 = *nodes;
            remove_owned_and_settle(nodes, pos, o, wires, comps, generation);
            proof {
                assert(pos == h0.slots()[q].pos);
                assert forall|k: NodeKey| #[trigger] h1.slots().contains_key(k)
                    implies taken(h1, pos, o, k) == taken(h0, pos, o, k) by {
                    if taken(h1, pos, o, k) {
                        assert forall|k2: NodeKey| #[trigger] h0.slots().contains_key(k2) && h0.slots()[k2].pos == pos
                            implies h0.slots()[k2].owner is Some by {
                            if h1.slots().contains_key(k2) {
                                assert(h1.slots()[k2].pos == pos);
                            } else {
                                assert(taken_by_any(h0, ks, o, k2));
                                let j = choose|j: int| 0 <= j < ks.len() && h0.slots().contains_key(ks[j])
                                    && #[trigger] taken(h0, h0.slots()[ks[j]].pos, o, k2);
                            }
                        }
                    }
                    if taken(h0, pos, o, k) {
                        assert forall|k2: NodeKey| #[trigger] h1.slots().contains_key(k2) && h1.slots()[k2].pos == pos
                            implies h1.slots()[k2].owner is Some by {
                            assert(h0.slots().contains_key(k2));
                        }
                    }
                }
                assert forall|k: NodeKey| #[trigger] old(nodes).slots().contains_key(k)
                    && old(nodes).slots()[k].owner != Some(ElemIndex::Comp(cidx))
                    implies nodes.slots().contains_key(k) by {
                    assert(h1.slots().contains_key(k));
                }
            }
            i = i + 1;
        }
        proof {
            assert(self.nodes@.subrange(0, self.nodes@.len() as int) =~= self.nodes@);
        }
    }

    /// The levels of this component's nodes in `nodes`.
    pub open spec fn levels(&self, nodes: NodeHandler) -> Seq<LL> {
        self.nodes@.map_values(|k: NodeKey| spec_level_of(nodes, k))
    }

    /// Recomputes the level this component drives from the levels of its
    /// inputs and drives it from its output node, in pass `g`.
    pub fn update(&self, nodes: &mut NodeHandler, wires: &Wires, comps: &CompArena, g: u32)
        requires
            old(nodes).wf(),
        ensures
            final(nodes).wf(),
            final(nodes).table() == old(nodes).table(),
            pass_step(old(nodes).slots(), final(nodes).slots(), g),
            comp_nodes_stored(old(nodes).slots(), *self) ==> ({
                let p = old(nodes).slots()[self.nodes@[0]].pos;
                old(nodes).at(p).len() > 0 && old(nodes).slots()[old(nodes).at(p)[0]].generation != g
                    ==> final(nodes).slots()[old(nodes).at(p)[0]].logic_lvl == gate_output(self.kind, self.levels(*old(nodes)))
            }),
            comp_nodes_stored(old(nodes).slots(), *self) ==> ({
                let p = old(nodes).slots()[self.nodes@[0]].pos;
                (forall|j: int| 0 <= j < old(nodes).at(p).len() ==> #[trigger] old(nodes).slots()[old(nodes).at(p)[j]].generation != g)
                    ==> final(nodes).slots()[self.nodes@[0]].logic_lvl == gate_output(self.kind, self.levels(*old(nodes)))
                        && forall|j: int| 0 <= j < old(nodes).at(p).len()
                            ==> final(nodes).slots()[#[trigger] old(nodes).at(p)[j]].logic_lvl == gate_output(self.kind, self.levels(*old(nodes)))
            }),
            forall|p: IVec2, j: int| touched(*old(nodes), p, g) && 0 <= j < old(nodes).at(p).len()
                ==> final(nodes).slots()[#[trigger] old(nodes).at(p)[j]] == old(nodes).slots()[old(nodes).at(p)[j]],
        decreases unmarked(old(nodes).slots(), g).len(), 1nat,
    {
        let need: usize = match self.kind {
            CompKind::Input { state: _ } => 1,
            _ => 2,
        };
        if self.nodes.len() < need {
            return;
        }
        let out = match nodes.node_storage.get(self.nodes[0]) {
            Some(n) => *n,
            None => {
                return;
            },
        };
        let ghost lv = self.levels(*nodes);
        let ghost op = kind_op(self.kind);
        let value = match self.kind {
            CompKind::Input { state } => LL::from_bool(state),
            _ => {
                let mut v = level_of(nodes, self.nodes[1]);
                let mut j: usize = 2;
                assert(lv.subrange(1, 2) =~= seq![lv[1]]);
                while j < self.nodes.len()
                    invariant
                        2 <= j <= self.nodes@.len(),
                        lv == self.levels(*nodes),
                        op == kind_op(self.kind),
                        !(self.kind is Input),
                        v == fold_levels(lv.subrange(1, j as int), op),
                    decreases self.nodes@.len() - j,
                {
                    let l = level_of(nodes, self.nodes[j]);
                    proof {
                        assert(lv.subrange(1, j + 1).drop_last() =~= lv.subrange(1, j as int));
                        assert(lv.subrange(1, j + 1).last() == lv[j as int]);
                    }
                    v = match self.kind {
                        CompKind::OrGate => v.or(l),
                        CompKind::XorGate => v.xor(l),
                        _ => v.and(l),
                    };
                    j = j + 1;
                }
                assert(lv.subrange(1, lv.len() as int) == lv.subrange(1, j as int));
                match self.kind {
                    CompKind::NandGate => v.negate(),
                    _ => v,
                }
            },
        };
        let ghost h0 = *nodes;
        propagate(nodes, wires, comps, out.pos, g, value, Ghost(Set::empty()));
        proof {
            let k0 = self.nodes@[0];
            assert(h0.slots().contains_key(k0));
            assert(h0.table().contains_key(key_of(h0.slots()[k0].pos)));
            assert(h0.table()[key_of(h0.slots()[k0].pos)].contains(k0));
            let j0 = choose|j: int| 0 <= j < h0.at(out.pos).len() && h0.at(out.pos)[j] == k0;
            assert(h0.at(out.pos)[j0] == k0);
        }
    }
}

} // verus!
