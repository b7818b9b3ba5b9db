//! The circuit being edited: components, wires, their nodes, the
//! selection, the clipboard and the undo/redo history.
use vstd::prelude::*;
use crate::arena::{CompArena, CompKey, WireKey, NodeKey, comp_slots, wire_slots, comp_keys_listed, wire_keys_listed};
use crate::component::{CompKind, Component, check_fits, fits, placeable, spec_templates, spec_hitbox, gate_output, comp_movable};
use crate::geometry::{IVec2, vadd, mk, pair_in_range, key_of, cross, check, in_box};
use crate::history::{Action, History, action_in_range, spec_reverse};
use crate::logic::LL;
use crate::nodes::{ElemIndex, NodeHandler, copy_keys, set_nodes, next_pass, pass_step, comp_nodes_stored};
use crate::wires::{Wire, Wires, spec_touches, meets, wire_movable, nodes_owned_at, covered_by, blocked_by, lemma_covered_by, lemma_blocked_by, skew};

verus! {

/// A copied element, relative to the top-left corner of the copied group.
#[derive(PartialEq, Eq, Structural, Debug, Clone, Copy)]
pub enum ClipboardElement {
    Wire { start: IVec2, end: IVec2 },
    Component { kind: CompKind, pos: IVec2 },
}

/// The circuit and its editing state.
pub struct Canvas {
    pub comps: CompArena,
    pub wires: Wires,
    pub nodes: NodeHandler,
    /// The number of the last propagation pass.
    pub update_generation: u32,
    /// The id the next component gets.
    pub compid: u64,
    pub selection: Vec<ElemIndex>,
    pub clipboard: Vec<ClipboardElement>,
    pub history: History,
}

impl Canvas {
    /// The components, by key.
    pub open spec fn cs(&self) -> Map<CompKey, Component> {
        comp_slots(self.comps)
    }

    /// The wires, by key.
    pub open spec fn ws(&self) -> Map<WireKey, Wire> {
        self.wires.slots()
    }

    /// The node table is consistent, every stored point is admissible, and
    /// every recorded action can be reversed.
    pub open spec fn wf(&self) -> bool {
        &&& self.nodes.wf()
        &&& self.history.wf()
        &&& self.cs().dom().finite()
        &&& self.ws().dom().finite()
        &&& forall|c: CompKey| #[trigger] self.cs().contains_key(c) ==> self.cs()[c].pos.in_range() && c.gen > 0
        &&& forall|w: WireKey| #[trigger] self.ws().contains_key(w)
            ==> self.ws()[w].start.in_range() && self.ws()[w].end.in_range() && w.gen > 0
        &&& forall|i: int, j: int| 0 <= i < self.history.log().len() && 0 <= j < self.history.log()[i].len()
            ==> action_in_range(#[trigger] self.history.log()[i][j])
        &&& forall|a: CompKey, b: CompKey| #[trigger] self.cs().contains_key(a) && #[trigger] self.cs().contains_key(b)
            && a.slot == b.slot ==> a == b
        &&& forall|a: WireKey, b: WireKey| #[trigger] self.ws().contains_key(a) && #[trigger] self.ws().contains_key(b)
            && a.slot == b.slot ==> a == b
    }

    /// An empty canvas.
    pub fn blank() -> (c: Canvas)
        ensures
            c.wf(),
            c.cs().is_empty(),
            c.ws().is_empty(),
            c.nodes.slots().is_empty(),
            c.nodes.table().is_empty(),
            c.history.log().len() == 0,
            c.history.cursor == 0,
            !c.history.recording,
            c.update_generation == 0,
            c.compid == 0,
            c.selection@ == Seq::<ElemIndex>::empty(),
            c.clipboard@ == Seq::<ClipboardElement>::empty(),
    {
        let c = Canvas {
            comps: CompArena::new(),
            wires: Wires::new(),
            nodes: NodeHandler::new(),
            update_generation: 0,
            compid: 0,
            selection: Vec::new(),
            clipboard: Vec::new(),
            history: History::new(),
        };
        c
    }

    /// Places a `kind` component at `at` (with the next id): its nodes are
    /// stored and owned by it, and a new pass sets the net of each node to
    /// that node's level, in order. Returns `false` and changes nothing if
    /// the component does not fit or its output would contradict the level
    /// on its point.
    pub fn add_comp(&mut self, asd: CompKind, at: IVec2) -> (added: bool)
        requires
            old(self).wf(),
        ensures
            final(self).wf(),
            final(self).history == old(self).history,
            final(self).selection@ == old(self).selection@,
            final(self).clipboard@ == old(self).clipboard@,
            added == (fits(asd, at) && placeable(asd, at, old(self).nodes)),
            !added ==> *final(self) == *old(self),
            added ==> exists|k: CompKey| {
                &&& !old(self).cs().contains_key(k)
                &&& #[trigger] final(self).cs().dom() == old(self).cs().dom().insert(k)
                &&& final(self).cs()[k].kind == asd
                &&& final(self).cs()[k].pos == at
                &&& final(self).cs()[k].id == old(self).compid
                &&& comp_placed(final(self).nodes, final(self).cs()[k], k)
                &&& forall|k2: CompKey| old(self).cs().contains_key(k2) ==> final(self).cs()[k2] == old(self).cs()[k2]
            },
            added ==> final(self).compid == (if old(self).compid == u64::MAX { 0 } else { (old(self).compid + 1) as u64 }),
            final(self).ws() == old(self).ws(),
    {
        if !check_fits(asd, at) {
            return false;
        }
        let (ts, _) = asd.nodes();
        let t0 = ts[0];
        proof {
            assert(pair_in_range(vadd(at, spec_templates(asd)[0].pos)));
        }
        let p0 = at.plus(t0.pos);
        if !self.nodes.conflict_free(p0, t0.logic_lvl) {
            return false;
        }
        let c = Component::new(asd, at, self.compid, &mut self.nodes);
        let keys = copy_keys(&c.nodes);
        let ghost cc = c;
        let idx = self.comps.insert(c);
        let ghost h0 = self.nodes;
        let mut i: usize = 0;
        while i < keys.len()
            invariant
                self.nodes.wf(),
                0 <= i <= keys@.len(),
                forall|j: int| 0 <= j < keys@.len() ==> #[trigger] self.nodes.slots().contains_key(keys@[j]),
                self.nodes.slots().dom() == h0.slots().dom(),
                self.cs() == old(self).cs().insert(idx, comp_slots(self.comps)[idx]),
                !old(self).cs().contains_key(idx),
                comp_slots(self.comps)[idx].pos == at,
                comp_slots(self.comps)[idx].kind == asd,
                comp_slots(self.comps)[idx].id == old(self).compid,
                comp_slots(self.comps)[idx] == cc,
                keys@ == cc.nodes@,
                cc.nodes@.no_duplicates(),
                !cc.selected && cc.move_request is None,
                cc.nodes@.len() == spec_templates(asd).len(),
                forall|j: int| 0 <= j < keys@.len() ==> self.nodes.slots()[#[trigger] keys@[j]].pos == mk(vadd(at, spec_templates(asd)[j].pos)),
                forall|j: int| 0 <= j < i ==> self.nodes.slots()[#[trigger] keys@[j]].owner == Some(ElemIndex::Comp(idx)),
                self.ws() == old(self).ws(),
                self.history == old(self).history,
                self.selection == old(self).selection,
                self.clipboard == old(self).clipboard,
                self.compid == old(self).compid,
            decreases keys@.len() - i,
        {
            let k = keys[i];
            let ghost h1 = self.nodes;
            {
                let nm = self.nodes.node_storage.get_mut(k);
                nm.owner = Some(ElemIndex::Comp(idx));
            }
            let ll = self.nodes.node_storage.get(k).unwrap().logic_lvl;
            let npos = self.nodes.node_storage.get(k).unwrap().pos;
            proof {
                let s2 = self.nodes.slots();
                assert(s2.dom() =~= h1.slots().dom());
                assert(self.nodes.table() == h1.table());
                assert forall|kk: u64, j: int| self.nodes.table().contains_key(kk) && 0 <= j < self.nodes.table()[kk].len() implies
                    s2.contains_key(#[trigger] self.nodes.table()[kk][j]) && key_of(s2[self.nodes.table()[kk][j]].pos) == kk by {
                    assert(h1.slots().contains_key(h1.table()[kk][j]));
                }
                assert forall|kk: NodeKey| #[trigger] s2.contains_key(kk) implies kk.gen > 0 && s2[kk].pos.in_range() by {
                    assert(h1.slots().contains_key(kk));
                }
                assert forall|kk: NodeKey| #[trigger] s2.contains_key(kk) implies {
                    &&& self.nodes.table().contains_key(key_of(s2[kk].pos))
                    &&& self.nodes.table()[key_of(s2[kk].pos)].contains(kk)
                } by {
                    assert(h1.slots().contains_key(kk));
                }
            }
            let ghost h2 = self.nodes;
            proof {
                assert forall|j: int| 0 <= j < i + 1 implies h2.slots()[#[trigger] keys@[j]].owner == Some(ElemIndex::Comp(idx)) by {
                    if j < i {
                        assert(keys@[j] != keys@[i as int]);
                    }
                }
                assert forall|j: int| 0 <= j < keys@.len() implies h2.slots()[#[trigger] keys@[j]].pos == mk(vadd(at, spec_templates(asd)[j].pos)) by {
                    assert(h1.slots().contains_key(keys@[j]));
                }
            }
            set_nodes(&mut self.nodes, &self.wires, &self.comps, npos, &mut self.update_generation, ll, true);
            proof {
                assert forall|j: int| 0 <= j < i + 1 implies self.nodes.slots()[#[trigger] keys@[j]].owner == Some(ElemIndex::Comp(idx)) by {
                    assert(h2.slots().contains_key(keys@[j]));
                }
                assert forall|j: int| 0 <= j < keys@.len() implies self.nodes.slots()[#[trigger] keys@[j]].pos == mk(vadd(at, spec_templates(asd)[j].pos)) by {
                    assert(h2.slots().contains_key(keys@[j]));
                }
            }
            i = i + 1;
        }
        if self.compid == u64::MAX {
            self.compid = 0;
        } else {
            self.compid = self.compid + 1;
        }
        proof {
            assert(self.cs()[idx] == cc);
            assert(comp_placed(self.nodes, self.cs()[idx], idx));
            assert(self.cs().dom() == old(self).cs().dom().insert(idx));
            assert forall|cc: CompKey| #[trigger] self.cs().contains_key(cc) implies self.cs()[cc].pos.in_range() && cc.gen > 0 by {
                if cc != idx {
                    assert(old(self).cs().contains_key(cc));
                }
            }
        }
        true
    }

    /// Carries out `action` on the circuit (without recording it). Returns
    /// whether it applied; when it does not, nothing changes. An action
    /// applies when its points are admissible and:
    /// - `AddComp`: the component fits and its output contradicts no level
    ///   on its point (see `add_comp`);
    /// - `DeleteComp`: a component stands at `at`; the one with the least
    ///   slot is removed, then its nodes (see `Component::remove_nodes`);
    /// - `AddWire`: always (see `Wires::add`);
    /// - `DeleteWire`: a wire runs from `from` to `to`; the one with the
    ///   greatest slot loses its nodes (see `Wire::remove_nodes`) and is
    ///   removed;
    /// - `OverwriteWire`: a wire runs from `oldstart` to `oldend` (the one
    ///   with the least slot), its ends differ and its nodes are on them;
    ///   its ends become `newstart` and `newend` (see `Wire::overwrite`);
    /// - `MoveComp`: a component stands at `from` (least slot) and can be
    ///   moved by `to - from` (see `Component::move_by`);
    /// - `MoveWire`: a wire runs between `from` and `to` in either direction
    ///   (least slot) and can be moved by `by` (see `Wire::move_by`).
    pub fn execute_action(&mut self, action: Action) -> (applied: bool)
        requires
            old(self).wf(),
        ensures
            final(self).wf(),
            final(self).history == old(self).history,
            final(self).selection@ == old(self).selection@,
            final(self).clipboard@ == old(self).clipboard@,
            !applied ==> *final(self) == *old(self),
            !action_in_range(action) ==> !applied,
            action_in_range(action) ==> action_effect(old(self).cs(), old(self).ws(), old(self).nodes,
                final(self).cs(), final(self).ws(), action, applied),
            applied && action is AddComp ==> {
                &&& final(self).compid == (if old(self).compid == u64::MAX { 0 } else { (old(self).compid + 1) as u64 })
                &&& exists|k: CompKey| {
                    &&& !old(self).cs().contains_key(k)
                    &&& #[trigger] final(self).cs().dom() == old(self).cs().dom().insert(k)
                    &&& final(self).cs()[k].id == old(self).compid
                    &&& comp_placed(final(self).nodes, final(self).cs()[k], k)
                }
            },
    {
        if !action.check_in_range() {
            return false;
        }
        match action {
            Action::AddComp { to, kind } => self.add_comp(kind, to),
            Action::AddWire { from, to } => {
                let w = self.wires.add(from, to, &mut self.nodes);
                proof {
                    assert(!old(self).ws().contains_key(w));
                    assert(self.ws().dom() == old(self).ws().dom().insert(w));
                    assert(self.ws()[w].start == from && self.ws()[w].end == to);
                    assert forall|ww: WireKey| #[trigger] self.ws().contains_key(ww) implies
                        self.ws()[ww].start.in_range() && self.ws()[ww].end.in_range() && ww.gen > 0 by {
                        if ww != w {
                            assert(old(self).ws().contains_key(ww));
                        }
                    }
                }
                true
            },
            Action::DeleteComp { at, kind: _ } => {
                let rem = match self.find_comp_at(at) {
                    Some(k) => k,
                    None => {
                        return false;
                    },
                };
                let t = self.comps.remove(rem).unwrap();
                t.remove_nodes(&mut self.nodes, rem, &self.wires, &self.comps, &mut self.update_generation);
                proof {
                    assert(self.cs().dom() =~= old(self).cs().dom().remove(rem));
                    assert(first_comp_at(old(self).cs(), at, rem));
                    assert(old(self).cs().contains_key(rem) && old(self).cs()[rem].pos == at);
                    assert(self.cs() =~= old(self).cs().remove(rem));
                }
                true
            },
            Action::DeleteWire { from, to } => {
                let widx = match self.find_wire(from, to, false, true) {
                    Some(k) => k,
                    None => {
                        return false;
                    },
                };
                let w = *self.wires.wires.get(widx).unwrap();
                w.remove_nodes(&mut self.nodes, widx, &self.wires, &self.comps, &mut self.update_generation);
                let _ = self.wires.wires.remove(widx);
                proof {
                    assert(self.ws().dom() =~= old(self).ws().dom().remove(widx));
                    assert(extreme_wire(old(self).ws(), from, to, false, true, widx));
                    assert(old(self).ws().contains_key(widx) && wire_matches(old(self).ws()[widx], from, to, false));
                    assert(self.ws() =~= old(self).ws().remove(widx));
                }
                true
            },
            Action::OverwriteWire { oldstart, oldend, newstart, newend } => {
                let widx = match self.find_wire(oldstart, oldend, false, false) {
                    Some(k) => k,
                    None => {
                        return false;
                    },
                };
                let mut jaj = *self.wires.wires.get(widx).unwrap();
                if jaj.start == jaj.end {
                    return false;
                }
                if !self.nodes.owned_at(jaj.start, ElemIndex::Wire(widx)) || !self.nodes.owned_at(jaj.end, ElemIndex::Wire(widx)) {
                    return false;
                }
                jaj.overwrite(newstart, newend, &mut self.nodes, widx);
                *self.wires.wires.get_mut(widx) = jaj;
                proof {
                    assert(self.ws().dom() =~= old(self).ws().dom());
                    assert(extreme_wire(old(self).ws(), oldstart, oldend, false, false, widx));
                    assert forall|ww: WireKey| #[trigger] self.ws().contains_key(ww) implies
                        self.ws()[ww].start.in_range() && self.ws()[ww].end.in_range() && ww.gen > 0 by {
                        if ww != widx {
                            assert(old(self).ws().contains_key(ww));
                        }
                    }
                }
                true
            },
            Action::MoveComp { from, to } => {
                let cidx = match self.find_comp_at(from) {
                    Some(k) => k,
                    None => {
                        return false;
                    },
                };
                let by = to.minus(from);
                if !(-16777216 <= by.x && by.x <= 16777216 && -16777216 <= by.y && by.y <= 16777216) {
                    return false;
                }
                let mut c2 = duplicate(self.comps.get(cidx).unwrap());
                if !c2.move_by(by, &mut self.nodes, cidx, &self.wires, &self.comps, &mut self.update_generation) {
                    return false;
                }
                *self.comps.get_mut(cidx) = c2;
                proof {
                    assert(self.cs().dom() =~= old(self).cs().dom());
                    assert(first_comp_at(old(self).cs(), from, cidx));
                    assert(self.cs()[cidx].pos == to);
                    assert forall|cc: CompKey| #[trigger] self.cs().contains_key(cc) implies self.cs()[cc].pos.in_range() && cc.gen > 0 by {
                        if cc != cidx {
                            assert(old(self).cs().contains_key(cc));
                        }
                    }
                }
                true
            },
            Action::MoveWire { from, to, by } => {
                let widx = match self.find_wire(from, to, true, false) {
                    Some(k) => k,
                    None => {
                        return false;
                    },
                };
                let mut w = *self.wires.wires.get(widx).unwrap();
                if !w.move_by(by, widx, &mut self.nodes, &self.wires, &self.comps, &mut self.update_generation) {
                    return false;
                }
                *self.wires.wires.get_mut(widx) = w;
                proof {
                    assert(self.ws().dom() =~= old(self).ws().dom());
                    assert(extreme_wire(old(self).ws(), from, to, true, false, widx));
                    assert forall|ww: WireKey| #[trigger] self.ws().contains_key(ww) implies
                        self.ws()[ww].start.in_range() && self.ws()[ww].end.in_range() && ww.gen > 0 by {
                        if ww != widx {
                            assert(old(self).ws().contains_key(ww));
                        }
                    }
                }
                true
            },
        }
    }

    /// Begins recording an undoable step (see `History::start`).
    pub fn start_record(&mut self)
        requires
            old(self).wf(),
            !old(self).history.recording,
        ensures
            final(self).wf(),
            final(self).history.recording,
            final(self).history.cursor == old(self).history.cursor,
            final(self).history.log() == (if old(self).history.cursor < old(self).history.log().len() {
                old(self).history.log().subrange(0, old(self).history.cursor + 1)
            } else {
                old(self).history.log().push(Seq::<Action>::empty())
            }),
            final(self).cs() == old(self).cs(),
            final(self).ws() == old(self).ws(),
            final(self).nodes == old(self).nodes,
            final(self).clipboard == old(self).clipboard,
            final(self).selection == old(self).selection,
    {
        self.history.start();
        proof {
            let l = self.history.log();
            let l0 = old(self).history.log();
            assert forall|i: int, j: int| 0 <= i < l.len() && 0 <= j < l[i].len() implies action_in_range(#[trigger] l[i][j]) by {
                if i < l0.len() {
                    assert(l[i] == l0[i]);
                }
            }
        }
    }

    /// Ends the step being recorded (see `History::end`).
    pub fn end_record(&mut self)
        requires
            old(self).wf(),
            old(self).history.recording,
        ensures
            final(self).wf(),
            !final(self).history.recording,
            final(self).history.cursor == old(self).history.cursor + 1,
            final(self).history.log() == old(self).history.log(),
            final(self).cs() == old(self).cs(),
            final(self).ws() == old(self).ws(),
            final(self).nodes == old(self).nodes,
            final(self).clipboard == old(self).clipboard,
            final(self).selection == old(self).selection,
    {
        self.history.end();
    }

    /// Carries out `action` and, if it applied, adds it to the step being
    /// recorded. Returns whether it applied.
    pub fn add_and_execute(&mut self, action: Action) -> (applied: bool)
        requires
            old(self).wf(),
            old(self).history.recording,
        ensures
            final(self).wf(),
            final(self).history.recording,
            final(self).history.cursor == old(self).history.cursor,
            final(self).history.log() == (if applied {
                old(self).history.log().update(
                    old(self).history.cursor as int,
                    old(self).history.log()[old(self).history.cursor as int].push(action),
                )
            } else {
                old(self).history.log()
            }),
            final(self).selection@ == old(self).selection@,
            final(self).clipboard@ == old(self).clipboard@,
            !applied ==> *final(self) == *old(self),
            !action_in_range(action) ==> !applied,
            action_in_range(action) ==> action_effect(old(self).cs(), old(self).ws(), old(self).nodes,
                final(self).cs(), final(self).ws(), action, applied),
    {
        let applied = self.execute_action(action);
        if applied {
            let ghost l0 = self.history.log();
            self.history.record(action);
            proof {
                let l = self.history.log();
                assert forall|i: int, j: int| 0 <= i < l.len() && 0 <= j < l[i].len() implies action_in_range(#[trigger] l[i][j]) by {
                    if i != self.history.cursor || j < l0[i].len() {
                        assert(l[i][j] == l0[i][j]);
                    }
                }
            }
        }
        applied
    }

    /// Deletes the wire from `from` to `to` as a step of its own, first
    /// taking out of the selection every live wire with exactly those ends.
    pub fn delete_wire_at(&mut self, from: IVec2, to: IVec2) -> (applied: bool)
        requires
            old(self).wf(),
            !old(self).history.recording,
        ensures
            final(self).wf(),
            !final(self).history.recording,
            final(self).history.cursor == old(self).history.cursor + 1,
            final(self).history.log() == ({
                let l = started(old(self).history);
                let c = old(self).history.cursor as int;
                if applied { l.update(c, l[c].push(Action::DeleteWire { from, to })) } else { l }
            }),
            final(self).selection@ == old(self).selection@.filter(|e: ElemIndex| stays_selected(old(self).ws(), e, from, to)),
            final(self).clipboard@ == old(self).clipboard@,
            !action_in_range(Action::DeleteWire { from, to }) ==> !applied,
            action_in_range(Action::DeleteWire { from, to }) ==> action_effect(old(self).cs(), old(self).ws(), old(self).nodes,
                final(self).cs(), final(self).ws(), Action::DeleteWire { from, to }, applied),
    {
        let ghost sel = self.selection@;
        let ghost ws = self.ws();
        let ghost f = |e: ElemIndex| stays_selected(ws, e, from, to);
        let mut kept: Vec<ElemIndex> = Vec::new();
        let mut i: usize = 0;
        while i < self.selection.len()
            invariant
                self.selection@ == sel,
                self.ws() == ws,
                f == (|e: ElemIndex| stays_selected(ws, e, from, to)),
                0 <= i <= sel.len(),
                kept@ == sel.subrange(0, i as int).filter(f),
            decreases sel.len() - i,
        {
            let e = self.selection[i];
            let keep = match e {
                ElemIndex::Wire(w) => match self.wires.wires.get(w) {
                    Some(x) => x.start != from || x.end != to,
                    None => true,
                },
                ElemIndex::Comp(_) => true,
            };
            proof {
                assert(sel.subrange(0, i + 1) =~= sel.subrange(0, i as int).push(e));
                sel.subrange(0, i as int).lemma_filter_push(e, f);
                assert(keep == f(e));
            }
            if keep {
                kept.push(e);
            }
            i = i + 1;
        }
        proof {
            assert(sel.subrange(0, sel.len() as int) =~= sel);
        }
        self.selection = kept;
        self.record_and_execute(Action::DeleteWire { from, to })
    }

    /// Records `action` as a step of its own and carries it out.
    pub fn record_and_execute(&mut self, action: Action) -> (applied: bool)
        requires
            old(self).wf(),
            !old(self).history.recording,
        ensures
            final(self).wf(),
            !final(self).history.recording,
            final(self).history.cursor == old(self).history.cursor + 1,
            final(self).history.log() == ({
                let l = started(old(self).history);
                let c = old(self).history.cursor as int;
                if applied { l.update(c, l[c].push(action)) } else { l }
            }),
            final(self).selection@ == old(self).selection@,
            final(self).clipboard@ == old(self).clipboard@,
            !action_in_range(action) ==> !applied,
            action_in_range(action) ==> action_effect(old(self).cs(), old(self).ws(), old(self).nodes,
                final(self).cs(), final(self).ws(), action, applied),
    {
        self.start_record();
        let applied = self.add_and_execute(action);
        self.end_record();
        applied
    }

    /// Carries out the reverse of `action`.
    pub fn revert_action(&mut self, action: Action) -> (applied: bool)
        requires
            old(self).wf(),
            action_in_range(action),
        ensures
            final(self).wf(),
            final(self).history == old(self).history,
            action_effect(old(self).cs(), old(self).ws(), old(self).nodes,
                final(self).cs(), final(self).ws(), spec_reverse(action), applied),
    {
        self.execute_action(action.reverse())
    }

    /// Undoes the last done step: its actions are reversed, last first.
    /// Returns `false` when there is nothing to undo.
    pub fn undo(&mut self) -> (done: bool)
        requires
            old(self).wf(),
        ensures
            final(self).wf(),
            done == (old(self).history.cursor > 0),
            final(self).history.log() == old(self).history.log(),
            final(self).history.recording == old(self).history.recording,
            final(self).history.cursor == (if done { old(self).history.cursor - 1 } else { old(self).history.cursor as int }),
            !done ==> *final(self) == *old(self),
            done && old(self).history.log()[old(self).history.cursor - 1].len() == 1 ==> exists|applied: bool|
                #[trigger] action_effect(old(self).cs(), old(self).ws(), old(self).nodes, final(self).cs(), final(self).ws(),
                    spec_reverse(old(self).history.log()[old(self).history.cursor - 1][0]), applied),
            done ==> exists|snaps: Seq<Snap>, apps: Seq<bool>| {
                &&& #[trigger] effect_chain(snaps, reversed_step(old(self).history.log()[old(self).history.cursor - 1]), apps)
                &&& snaps[0] == snap_of(*old(self))
                &&& snaps.last() == snap_of(*final(self))
            },
    {
        let acts = match self.history.step_back() {
            Some(a) => a,
            None => {
                return false;
            },
        };
        let ghost h = self.history;
        let ghost mut last_applied = false;
        let ghost rev = reversed_step(acts@);
        let ghost mut snaps: Seq<Snap> = seq![snap_of(*self)];
        let ghost mut apps: Seq<bool> = Seq::empty();
        assert(snap_of(*self) == snap_of(*old(self)));
        let mut i: usize = acts.len();
        while i > 0
            invariant
                self.wf(),
                self.history == h,
                rev == reversed_step(acts@),
                effect_chain(snaps, rev.subrange(0, acts@.len() - i), apps),
                snaps[0] == snap_of(*old(self)),
                snaps.last() == snap_of(*self),
                acts@ == h.log()[h.cursor as int],
                h.cursor < h.log().len(),
                0 <= i <= acts@.len(),
                acts@.len() == 1 && i == 0 ==> action_effect(old(self).cs(), old(self).ws(), old(self).nodes,
                    self.cs(), self.ws(), spec_reverse(acts@[0]), last_applied),
                acts@.len() == 1 && i == 1 ==> self.cs() == old(self).cs() && self.ws() == old(self).ws()
                    && self.nodes == old(self).nodes,
            decreases i,
        {
            i = i - 1;
            proof {
                assert(action_in_range(self.history.log()[h.cursor as int][i as int]));
            }
            let ghost s0 = snap_of(*self);
            let applied = self.revert_action(acts[i]);
            proof {
                last_applied = applied;
                let n = acts@.len() - i - 1;
                assert(rev[n] == spec_reverse(acts@[i as int]));
                let ns = snaps.push(snap_of(*self));
                let na = apps.push(applied);
                let r = rev.subrange(0, acts@.len() - i);
                assert forall|j: int| 0 <= j < r.len() implies action_effect(ns[j].cs, ns[j].ws, ns[j].nodes,
                    ns[j + 1].cs, ns[j + 1].ws, #[trigger] r[j], na[j]) by {
                    if j < n {
                        assert(r[j] == rev.subrange(0, n)[j]);
                        assert(ns[j] == snaps[j] && ns[j + 1] == snaps[j + 1] && na[j] == apps[j]);
                    } else {
                        assert(ns[j] == s0);
                    }
                }
                snaps = ns;
                apps = na;
            }
        }
        assert(rev.subrange(0, acts@.len() as int) =~= rev);
        true
    }

    /// Redoes the step at the cursor: its actions are carried out in order.
    /// Returns `false` when there is nothing to redo.
    pub fn redo(&mut self) -> (done: bool)
        requires
            old(self).wf(),
            !old(self).history.recording,
        ensures
            final(self).wf(),
            done == (old(self).history.cursor < old(self).history.log().len()),
            final(self).history.log() == old(self).history.log(),
            !final(self).history.recording,
            final(self).history.cursor == (if done { old(self).history.cursor + 1 } else { old(self).history.cursor as int }),
            !done ==> *final(self) == *old(self),
            done && old(self).history.log()[old(self).history.cursor as int].len() == 1 ==> exists|applied: bool|
                #[trigger] action_effect(old(self).cs(), old(self).ws(), old(self).nodes, final(self).cs(), final(self).ws(),
                    old(self).history.log()[old(self).history.cursor as int][0], applied),
            done ==> exists|snaps: Seq<Snap>, apps: Seq<bool>| {
                &&& #[trigger] effect_chain(snaps, old(self).history.log()[old(self).history.cursor as int], apps)
                &&& snaps[0] == snap_of(*old(self))
                &&& snaps.last() == snap_of(*final(self))
            },
    {
        let acts = match self.history.step_forward() {
            Some(a) => a,
            None => {
                return false;
            },
        };
        let ghost h = self.history;
        let ghost mut last_applied = false;
        let ghost mut snaps: Seq<Snap> = seq![snap_of(*self)];
        let ghost mut apps: Seq<bool> = Seq::empty();
        assert(snap_of(*self) == snap_of(*old(self)));
        let mut i: usize = 0;
        while i < acts.len()
            invariant
                self.wf(),
                self.history == h,
                effect_chain(snaps, acts@.subrange(0, i as int), apps),
                snaps[0] == snap_of(*old(self)),
                snaps.last() == snap_of(*self),
                0 <= i <= acts@.len(),
                acts@ == old(self).history.log()[old(self).history.cursor as int],
                forall|j: int| 0 <= j < acts@.len() ==> action_in_range(#[trigger] acts@[j]),
                acts@.len() == 1 && i == 1 ==> action_effect(old(self).cs(), old(self).ws(), old(self).nodes,
                    self.cs(), self.ws(), acts@[0], last_applied),
                acts@.len() == 1 && i == 0 ==> self.cs() == old(self).cs() && self.ws() == old(self).ws()
                    && self.nodes == old(self).nodes,
            decreases acts@.len() - i,
        {
            let ghost s0 = snap_of(*self);
            let applied = self.execute_action(acts[i]);
            proof {
                last_applied = applied;
                let ns = snaps.push(snap_of(*self));
                let na = apps.push(applied);
                let r = acts@.subrange(0, i + 1);
                assert forall|j: int| 0 <= j < r.len() implies action_effect(ns[j].cs, ns[j].ws, ns[j].nodes,
                    ns[j + 1].cs, ns[j + 1].ws, #[trigger] r[j], na[j]) by {
                    if j < i {
                        assert(r[j] == acts@.subrange(0, i as int)[j]);
                        assert(ns[j] == snaps[j] && ns[j + 1] == snaps[j + 1] && na[j] == apps[j]);
                    } else {
                        assert(ns[j] == s0);
                    }
                }
                snaps = ns;
                apps = na;
            }
            i = i + 1;
        }
        assert(acts@.subrange(0, acts@.len() as int) =~= acts@);
        true
    }

    /// Splits the wire from `start` to `end` at `at` (recorded): the wire
    /// is shortened to end at `at`, and a wire from `at` to `end` is added.
    pub fn checked_split(&mut self, start: IVec2, end: IVec2, at: IVec2)
        requires
            old(self).wf(),
            old(self).history.recording,
        ensures
            final(self).wf(),
            wire_step(old(self).history, final(self).history),
            final(self).clipboard@ == old(self).clipboard@,
            final(self).selection@ == old(self).selection@,
            final(self).cs() == old(self).cs(),
            final(self).history.cursor == old(self).history.cursor,
            exists|ws_mid: Map<WireKey, Wire>, n_mid: NodeHandler, shortened: bool, added: bool|
                #![trigger step_effect(old(self).cs(), old(self).ws(), old(self).nodes, old(self).cs(), ws_mid,
                    Action::OverwriteWire { oldstart: start, oldend: end, newstart: start, newend: at }, shortened),
                    step_effect(old(self).cs(), ws_mid, n_mid, final(self).cs(), final(self).ws(),
                    Action::AddWire { from: at, to: end }, added)]
            {
                &&& step_effect(old(self).cs(), old(self).ws(), old(self).nodes, old(self).cs(), ws_mid,
                    Action::OverwriteWire { oldstart: start, oldend: end, newstart: start, newend: at }, shortened)
                &&& step_effect(old(self).cs(), ws_mid, n_mid, final(self).cs(), final(self).ws(),
                    Action::AddWire { from: at, to: end }, added)
                &&& final(self).history.log() == old(self).history.log().update(
                    old(self).history.cursor as int,
                    old(self).history.log()[old(self).history.cursor as int]
                        + applied_seq(Action::OverwriteWire { oldstart: start, oldend: end, newstart: start, newend: at }, shortened)
                        + applied_seq(Action::AddWire { from: at, to: end }, added),
                )
            },
    {
        let ow = Action::OverwriteWire { oldstart: start, oldend: end, newstart: start, newend: at };
        let add = Action::AddWire { from: at, to: end };
        let shortened = self.add_and_execute(ow);
        let ghost h1 = self.history;
        let ghost ws_mid = self.ws();
        let ghost n_mid = self.nodes;
        let ghost cs_mid = self.cs();
        let added = self.add_and_execute(add);
        proof {
            lemma_wire_step_trans(old(self).history, h1, self.history);
            let c = old(self).history.cursor as int;
            let l0 = old(self).history.log();
            assert(cs_mid == old(self).cs());
            assert(step_effect(old(self).cs(), old(self).ws(), old(self).nodes, old(self).cs(), ws_mid, ow, shortened));
            assert(step_effect(old(self).cs(), ws_mid, n_mid, self.cs(), self.ws(), add, added));
            let l1 = h1.log();
            let l2 = self.history.log();
            assert(c < l0.len());
            let a0 = l0[c] + applied_seq(ow, shortened);
            assert(a0 =~= (if shortened { l0[c].push(ow) } else { l0[c] }));
            assert(l1 =~= l0.update(c, a0));
            assert(l1[c] == a0);
            let a1 = a0 + applied_seq(add, added);
            assert(a1 =~= (if added { l1[c].push(add) } else { l1[c] }));
            assert(l2 =~= l1.update(c, a1));
            assert(l2 =~= l0.update(c, a1));
        }
    }

    /// Adds a wire from `from` to `to` (recorded), keeping the wiring
    /// tidy: nothing is added if an existing wire already covers it; an
    /// existing wire lying inside it is stretched to it (unless that wire
    /// has connections); a parallel wire sharing an end (with no other
    /// connection there) or overlapping it is merged with it; a crossing
    /// wire is split where an end of the new wire lies on it. After each
    /// stretch or merge the check starts over; it gives up after one
    /// start-over per wire (plus two), where merging would otherwise cycle,
    /// and then adds nothing more. A wire that meets no existing wire is
    /// added as it is.
    pub fn checked_add_wire(&mut self, from: IVec2, to: IVec2)
        requires
            old(self).wf(),
            old(self).history.recording,
        ensures
            final(self).wf(),
            wire_step(old(self).history, final(self).history),
            final(self).clipboard@ == old(self).clipboard@,
            final(self).selection@ == old(self).selection@,
            final(self).cs() == old(self).cs(),
            !from.in_range() || !to.in_range() ==> *final(self) == *old(self),
            from.in_range() && to.in_range() ==> wire_add_effect(old(self).cs(), old(self).ws(), final(self).cs(), final(self).ws(), from, to),
            from.in_range() && to.in_range()
                && (forall|k: WireKey| #[trigger] old(self).ws().contains_key(k) ==> !meets(old(self).ws()[k], from, to))
                ==> exists|w: WireKey| {
                    &&& !old(self).ws().contains_key(w)
                    &&& #[trigger] final(self).ws().dom() == old(self).ws().dom().insert(w)
                    &&& final(self).ws()[w].start == from
                    &&& final(self).ws()[w].end == to
                    &&& forall|k: WireKey| old(self).ws().contains_key(k) ==> final(self).ws()[k] == old(self).ws()[k]
                },
            (exists|k0: WireKey| #[trigger] covered_by(old(self).ws(), from, to, k0)) ==> *final(self) == *old(self),
            (exists|k0: WireKey| #[trigger] blocked_by(old(self).ws(), old(self).nodes, from, to, k0)) ==> *final(self) == *old(self),
            forall|k0: WireKey, p: IVec2| #[trigger] junction(old(self).ws(), old(self).nodes, from, to, k0, p)
                ==> exists|w2: WireKey, w3: WireKey| #[trigger] junction_added(old(self).ws(), final(self).ws(), from, to, k0, p, w2, w3),
    {
        let ghost (kj, pj) = choose|k: WireKey, p: IVec2| junction(old(self).ws(), old(self).nodes, from, to, k, p);
        let ghost jn = junction(old(self).ws(), old(self).nodes, from, to, kj, pj);
        let ghost mut w2g: WireKey = kj;
        proof {
            assert forall|k1: WireKey, p1: IVec2| #[trigger] junction(old(self).ws(), old(self).nodes, from, to, k1, p1)
                implies jn && k1 == kj && p1 == pj by {
                assert(jn);
                lemma_junction(old(self).ws(), old(self).nodes, from, to, k1, p1, kj);
                lemma_junction(old(self).ws(), old(self).nodes, from, to, kj, pj, k1);
                if k1 != kj {
                    assert(meets(old(self).ws()[k1], from, to));
                }
            }
        }
        if !crate::history::in_range(from) || !crate::history::in_range(to) {
            proof {
                if jn {
                    lemma_junction(old(self).ws(), old(self).nodes, from, to, kj, pj, kj);
                }
            }
            return;
        }
        let ghost kc = choose|k: WireKey| covered_by(old(self).ws(), from, to, k);
        let ghost cv = covered_by(old(self).ws(), from, to, kc);
        let ghost kb = choose|k: WireKey| blocked_by(old(self).ws(), old(self).nodes, from, to, k);
        let ghost bl = blocked_by(old(self).ws(), old(self).nodes, from, to, kb);
        proof {
            assert forall|k1: WireKey| #[trigger] covered_by(old(self).ws(), from, to, k1) implies cv by {}
            assert forall|k1: WireKey| #[trigger] blocked_by(old(self).ws(), old(self).nodes, from, to, k1) implies bl by {}
        }
        let new = Wire { start: from, end: to, startnode: None, endnode: None, selected: false };
        let mut runanother = true;
        let mut insert = true;
        let limit = self.wires.wires.len();
        let limit: usize = if limit < usize::MAX - 2 { limit + 2 } else { limit };
        let mut passes: usize = 0;
        let ghost h0 = self.history;
        while runanother && passes < limit
            invariant
                self.wf(),
                self.history.recording,
                wire_step(h0, self.history),
                h0 == old(self).history,
                new.start.in_range() && new.end.in_range(),
                new.start == from && new.end == to,
                self.clipboard@ == old(self).clipboard@,
                self.selection@ == old(self).selection@,
                self.cs() == old(self).cs(),
                (forall|k: WireKey| #[trigger] old(self).ws().contains_key(k) ==> !meets(old(self).ws()[k], from, to))
                    ==> insert && self.ws() == old(self).ws() && (passes > 0 ==> !runanother),
                limit >= 1,
                cv == covered_by(old(self).ws(), from, to, kc),
                !cv ==> forall|k1: WireKey| !#[trigger] covered_by(old(self).ws(), from, to, k1),
                cv ==> *self == *old(self) && ((passes == 0 && runanother && insert) || (!insert && !runanother)),
                bl == blocked_by(old(self).ws(), old(self).nodes, from, to, kb),
                !bl ==> forall|k1: WireKey| !#[trigger] blocked_by(old(self).ws(), old(self).nodes, from, to, k1),
                bl ==> passes == 0 && runanother && insert && *self == *old(self),
                jn == junction(old(self).ws(), old(self).nodes, from, to, kj, pj),
                !jn ==> forall|k1: WireKey, p1: IVec2| !#[trigger] junction(old(self).ws(), old(self).nodes, from, to, k1, p1),
                jn ==> insert && ((passes == 0 && runanother && self.ws() == old(self).ws() && self.nodes == old(self).nodes)
                    || (passes > 0 && !runanother && cut_at(old(self).ws(), self.ws(), kj, pj, w2g))),
            ensures
                (forall|k: WireKey| #[trigger] old(self).ws().contains_key(k) ==> !meets(old(self).ws()[k], from, to))
                    ==> insert && self.ws() == old(self).ws() && !runanother,
                cv ==> *self == *old(self) && !insert,
                !bl,
                jn ==> insert && !runanother && cut_at(old(self).ws(), self.ws(), kj, pj, w2g),
            decreases limit - passes,
        {
            runanother = false;
            passes = passes + 1;
            let keys = self.wires.wires.keys();
            let ghost jc: int = choose|j: int| 0 <= j < keys@.len() && keys@[j] == kc;
            let ghost jb: int = choose|j: int| 0 <= j < keys@.len() && keys@[j] == kb;
            let ghost jj: int = choose|j: int| 0 <= j < keys@.len() && keys@[j] == kj;
            proof {
                if jn {
                    lemma_junction(old(self).ws(), old(self).nodes, from, to, kj, pj, kj);
                    assert(keys@.to_set().contains(kj));
                    assert(keys@.contains(kj));
                }
                if cv {
                    lemma_covered_by(old(self).ws(), from, to, kc, kc);
                    assert(keys@.to_set().contains(kc));
                    assert(keys@.contains(kc));
                }
                if bl {
                    lemma_blocked_by(old(self).ws(), old(self).nodes, from, to, kb, kb);
                    assert(keys@.to_set().contains(kb));
                    assert(keys@.contains(kb));
                }
            }
            let mut i: usize = 0;
            while i < keys.len()
                invariant
                    jn == junction(old(self).ws(), old(self).nodes, from, to, kj, pj),
                    !jn ==> forall|k1: WireKey, p1: IVec2| !#[trigger] junction(old(self).ws(), old(self).nodes, from, to, k1, p1),
                    jn ==> wire_keys_listed(keys@, old(self).ws()),
                    jn ==> 0 <= jj < keys@.len() && keys@[jj] == kj,
                    jn ==> insert && !runanother
                        && (i <= jj ==> self.ws() == old(self).ws() && self.nodes == old(self).nodes)
                        && (i > jj ==> cut_at(old(self).ws(), self.ws(), kj, pj, w2g)),
                    cv == covered_by(old(self).ws(), from, to, kc),
                    !cv ==> forall|k1: WireKey| !#[trigger] covered_by(old(self).ws(), from, to, k1),
                    cv ==> wire_keys_listed(keys@, old(self).ws()),
                    cv ==> 0 <= jc < keys@.len() && keys@[jc] == kc,
                    cv ==> *self == *old(self) && !runanother && (insert <==> i <= jc),
                    bl == blocked_by(old(self).ws(), old(self).nodes, from, to, kb),
                    !bl ==> forall|k1: WireKey| !#[trigger] blocked_by(old(self).ws(), old(self).nodes, from, to, k1),
                    bl ==> wire_keys_listed(keys@, old(self).ws()),
                    bl ==> 0 <= jb < keys@.len() && keys@[jb] == kb,
                    bl ==> i <= jb && *self == *old(self) && insert && !runanother,
                    self.wf(),
                    self.history.recording,
                    wire_step(h0, self.history),
                    h0 == old(self).history,
                    new.start.in_range() && new.end.in_range(),
                    new.start == from && new.end == to,
                    self.clipboard@ == old(self).clipboard@,
                    self.selection@ == old(self).selection@,
                    self.cs() == old(self).cs(),
                    (forall|k: WireKey| #[trigger] old(self).ws().contains_key(k) ==> !meets(old(self).ws()[k], from, to))
                        ==> insert && self.ws() == old(self).ws() && !runanother,
                    passes > 0,
                ensures
                    cv ==> !insert,
                    !bl,
                    jn ==> i > jj,
                decreases keys@.len() - i,
            {
                let oldidx = keys[i];
                let ghost ws_pre = self.ws();
                let ghost n_pre = self.nodes;
                let ghost cs_pre = self.cs();
                proof {
                    if jn {
                        lemma_junction(old(self).ws(), old(self).nodes, from, to, kj, pj, oldidx);
                        reveal(skew);
                        assert(keys@[i as int] == oldidx);
                        assert(i as int != jj ==> oldidx != kj);
                        if i as int > jj {
                            assert(old(self).ws().contains_key(oldidx));
                            assert(self.ws()[oldidx] == old(self).ws()[oldidx]);
                        }
                    }
                    if cv {
                        lemma_covered_by(old(self).ws(), from, to, kc, oldidx);
                        assert(keys@[i as int] == oldidx);
                        assert(i as int != jc ==> oldidx != kc);
                    }
                    if bl {
                        lemma_blocked_by(old(self).ws(), old(self).nodes, from, to, kb, oldidx);
                        assert(keys@[i as int] == oldidx);
                        assert(i as int != jb ==> oldidx.slot < kb.slot);
                    }
                }
                i = i + 1;
                let old = match self.wires.wires.get(oldidx) {
                    Some(w) => *w,
                    None => {
                        continue;
                    },
                };
                let ghost hb = self.history;
                let v1 = old.start.minus(old.end);
                let v2 = new.start.minus(new.end);
                let parallel = cross(v1, v2) == 0;
                if old.touches(new.start) && old.touches(new.end) {
                    insert = false;
                    break;
                }
                if new.touches(old.start) && new.touches(old.end) {
                    if self.nodes.count_nodes(old.start) >= 2 || self.nodes.count_nodes(old.end) >= 2 {
                        return;
                    }
                    let _ = self.add_and_execute(Action::OverwriteWire { oldstart: old.start, oldend: old.end, newstart: new.start, newend: new.end });
                    proof { lemma_wire_step_trans(h0, hb, self.history); }
                    runanother = true;
                    break;
                }
                if parallel {
                    let mut act: Option<Action> = None;
                    if old.start == new.start && self.nodes.count_nodes(old.start) <= 1 {
                        act = Some(Action::OverwriteWire { oldstart: old.start, oldend: old.end, newstart: new.end, newend: old.end });
                    } else if old.start == new.end && self.nodes.count_nodes(old.start) <= 1 {
                        act = Some(Action::OverwriteWire { oldstart: old.start, oldend: old.end, newstart: old.end, newend: new.start });
                    } else if old.end == new.start && self.nodes.count_nodes(old.end) <= 1 {
                        act = Some(Action::OverwriteWire { oldstart: old.start, oldend: old.end, newstart: old.start, newend: new.end });
                    } else if old.end == new.end && self.nodes.count_nodes(old.end) <= 1 {
                        act = Some(Action::OverwriteWire { oldstart: old.start, oldend: old.end, newstart: old.start, newend: new.start });
                    } else if old.touches(new.start) && self.nodes.count_nodes(new.start) <= 1 {
                        if new.touches(old.start) && self.nodes.count_nodes(old.start) <= 1 {
                            act = Some(Action::OverwriteWire { oldstart: old.start, oldend: old.end, newstart: old.end, newend: new.end });
                        } else if new.touches(old.end) && self.nodes.count_nodes(old.end) <= 1 {
                            act = Some(Action::OverwriteWire { oldstart: old.start, oldend: old.end, newstart: old.start, newend: new.end });
                        }
                    } else if old.touches(new.end) && self.nodes.count_nodes(new.end) <= 1 {
                        if new.touches(old.start) && self.nodes.count_nodes(old.start) <= 1 {
                            act = Some(Action::OverwriteWire { oldstart: old.start, oldend: old.end, newstart: old.end, newend: new.start });
                        } else if new.touches(old.end) && self.nodes.count_nodes(old.end) <= 1 {
                            act = Some(Action::OverwriteWire { oldstart: old.start, oldend: old.end, newstart: old.start, newend: new.start });
                        }
                    }
                    match act {
                        Some(a) => {
                            let _ = self.add_and_execute(a);
                            proof { lemma_wire_step_trans(h0, hb, self.history); }
                            runanother = true;
                            break;
                        },
                        None => {},
                    }
                } else {
                    if old.touches(new.start) && old.start != new.start && old.end != new.start {
                        self.checked_split(old.start, old.end, new.start);
                        proof {
                            lemma_wire_step_trans(h0, hb, self.history);
                            if jn && oldidx == kj {
                                lemma_junction_cut(cs_pre, ws_pre, n_pre, self.ws(), from, to, kj, pj, old.start, old.end, new.start);
                                w2g = choose|w2: WireKey| #[trigger] cut_at(ws_pre, self.ws(), kj, pj, w2);
                            }
                        }
                    } else if old.touches(new.end) && old.start != new.end && old.end != new.end {
                        self.checked_split(old.start, old.end, new.end);
                        proof {
                            lemma_wire_step_trans(h0, hb, self.history);
                            if jn && oldidx == kj {
                                lemma_junction_cut(cs_pre, ws_pre, n_pre, self.ws(), from, to, kj, pj, old.start, old.end, new.end);
                                w2g = choose|w2: WireKey| #[trigger] cut_at(ws_pre, self.ws(), kj, pj, w2);
                            }
                        }
                    }
                }
            }
            if !insert {
                break;
            }
        }
        let ghost ws_cut = self.ws();
        if insert && !runanother {
            let ghost hb = self.history;
            let _ = self.add_and_execute(Action::AddWire { from: new.start, to: new.end });
            proof {
                lemma_wire_step_trans(h0, hb, self.history);
                if jn {
                    let w3 = choose|w: WireKey| {
                        &&& !ws_cut.contains_key(w)
                        &&& #[trigger] self.ws().dom() == ws_cut.dom().insert(w)
                        &&& self.ws()[w].start == from
                        &&& self.ws()[w].end == to
                        &&& forall|k: WireKey| ws_cut.contains_key(k) ==> self.ws()[k] == ws_cut[k]
                    };
                    lemma_junction(old(self).ws(), old(self).nodes, from, to, kj, pj, kj);
                    lemma_junction_added(old(self).ws(), ws_cut, self.ws(), from, to, kj, pj, w2g, w3);
                }
            }
        }
    }

    /// Adds `idx` to the selection and marks it selected; with `None`,
    /// clears the selection and every selected mark.
    pub fn select(&mut self, idx: Option<ElemIndex>)
        requires
            old(self).wf(),
        ensures
            final(self).wf(),
            final(self).history == old(self).history,
            final(self).nodes == old(self).nodes,
            final(self).clipboard@ == old(self).clipboard@,
            final(self).cs().dom() == old(self).cs().dom(),
            final(self).ws().dom() == old(self).ws().dom(),
            forall|c: CompKey| #[trigger] final(self).cs().contains_key(c) ==> {
                &&& final(self).cs()[c].pos == old(self).cs()[c].pos
                &&& final(self).cs()[c].kind == old(self).cs()[c].kind
                &&& final(self).cs()[c].nodes@ == old(self).cs()[c].nodes@
                &&& final(self).cs()[c].selected == (match idx {
                    Some(ElemIndex::Comp(s)) => s == c || old(self).cs()[c].selected,
                    Some(ElemIndex::Wire(_)) => old(self).cs()[c].selected,
                    None => false,
                })
            },
            forall|w: WireKey| #[trigger] final(self).ws().contains_key(w) ==> {
                &&& final(self).ws()[w] == (Wire { selected: final(self).ws()[w].selected, ..old(self).ws()[w] })
                &&& final(self).ws()[w].selected == (match idx {
                    Some(ElemIndex::Wire(s)) => s == w || old(self).ws()[w].selected,
                    Some(ElemIndex::Comp(_)) => old(self).ws()[w].selected,
                    None => false,
                })
            },
            final(self).selection@ == (match idx {
                Some(e) => old(self).selection@.push(e),
                None => Seq::<ElemIndex>::empty(),
            }),
    {
        match idx {
            Some(e) => {
                self.selection.push(e);
                match e {
                    ElemIndex::Wire(i) => {
                        if self.wires.wires.get(i).is_some() {
                            self.wires.wires.get_mut(i).selected = true;
                        }
                    },
                    ElemIndex::Comp(i) => {
                        if self.comps.get(i).is_some() {
                            self.comps.get_mut(i).selected = true;
                        }
                    },
                }
                proof {
                    assert(self.cs().dom() =~= old(self).cs().dom());
                    assert(self.ws().dom() =~= old(self).ws().dom());
                }
            },
            None => {
                let ckeys = self.comps.keys();
                let mut i: usize = 0;
                while i < ckeys.len()
                    invariant
                        crate::arena::comp_keys_listed(ckeys@, old(self).cs()),
                        self.cs().dom() == old(self).cs().dom(),
                        self.ws() == old(self).ws(),
                        self.nodes == old(self).nodes,
                        self.history == old(self).history,
                        self.selection == old(self).selection,
                        self.clipboard == old(self).clipboard,
                        self.wf(),
                        0 <= i <= ckeys@.len(),
                        forall|c: CompKey| #[trigger] self.cs().contains_key(c) ==> {
                            &&& self.cs()[c].pos == old(self).cs()[c].pos
                            &&& self.cs()[c].kind == old(self).cs()[c].kind
                            &&& self.cs()[c].nodes@ == old(self).cs()[c].nodes@
                            &&& self.cs()[c].selected == (old(self).cs()[c].selected && !ckeys@.take(i as int).contains(c))
                        },
                    decreases ckeys@.len() - i,
                {
                    let k = ckeys[i];
                    proof {
                        assert(ckeys@.to_set().contains(k));
                        assert forall|c: CompKey| ckeys@.take(i + 1).contains(c) <==> ckeys@.take(i as int).contains(c) || c == k by {
                            if ckeys@.take(i as int).contains(c) {
                                let j = choose|j: int| 0 <= j < i && ckeys@.take(i as int)[j] == c;
                                assert(ckeys@.take(i + 1)[j] == c);
                            }
                            if c == k {
                                assert(ckeys@.take(i + 1)[i as int] == c);
                            }
                            if ckeys@.take(i + 1).contains(c) {
                                let j = choose|j: int| 0 <= j < i + 1 && #[trigger] ckeys@.take(i + 1)[j] == c;
                                if j < i {
                                    assert(ckeys@.take(i as int)[j] == c);
                                }
                            }
                        }
                    }
                    self.comps.get_mut(k).selected = false;
                    proof {
                        assert(self.cs().dom() =~= old(self).cs().dom());
                    }
                    i = i + 1;
                }
                proof {
                    assert(ckeys@.take(ckeys@.len() as int) == ckeys@);
                    assert forall|c: CompKey| #[trigger] self.cs().contains_key(c) implies !self.cs()[c].selected by {
                        assert(ckeys@.to_set().contains(c));
                    }
                }
                let wkeys = self.wires.wires.keys();
                let ghost cs1 = self.cs();
                let mut i: usize = 0;
                while i < wkeys.len()
                    invariant
                        crate::arena::wire_keys_listed(wkeys@, old(self).ws()),
                        self.ws().dom() == old(self).ws().dom(),
                        self.cs() == cs1,
                        self.nodes == old(self).nodes,
                        self.history == old(self).history,
                        self.selection == old(self).selection,
                        self.clipboard == old(self).clipboard,
                        self.wf(),
                        0 <= i <= wkeys@.len(),
                        forall|w: WireKey| #[trigger] self.ws().contains_key(w) ==> {
                            &&& self.ws()[w] == (Wire { selected: self.ws()[w].selected, ..old(self).ws()[w] })
                            &&& self.ws()[w].selected == (old(self).ws()[w].selected && !wkeys@.take(i as int).contains(w))
                        },
                    decreases wkeys@.len() - i,
                {
                    let k = wkeys[i];
                    proof {
                        assert(wkeys@.to_set().contains(k));
                        assert forall|c: WireKey| wkeys@.take(i + 1).contains(c) <==> wkeys@.take(i as int).contains(c) || c == k by {
                            if wkeys@.take(i as int).contains(c) {
                                let j = choose|j: int| 0 <= j < i && wkeys@.take(i as int)[j] == c;
                                assert(wkeys@.take(i + 1)[j] == c);
                            }
                            if c == k {
                                assert(wkeys@.take(i + 1)[i as int] == c);
                            }
                            if wkeys@.take(i + 1).contains(c) {
                                let j = choose|j: int| 0 <= j < i + 1 && #[trigger] wkeys@.take(i + 1)[j] == c;
                                if j < i {
                                    assert(wkeys@.take(i as int)[j] == c);
                                }
                            }
                        }
                    }
                    self.wires.wires.get_mut(k).selected = false;
                    proof {
                        assert(self.ws().dom() =~= old(self).ws().dom());
                    }
                    i = i + 1;
                }
                proof {
                    assert(wkeys@.take(wkeys@.len() as int) == wkeys@);
                    assert forall|w: WireKey| #[trigger] self.ws().contains_key(w) implies !self.ws()[w].selected by {
                        assert(wkeys@.to_set().contains(w));
                    }
                }
                self.selection.clear();
            },
        }
    }

    /// Copies the selection to the clipboard, relative to the corner given
    /// by `copy_offset` (elements that no longer exist are skipped).
    pub fn copy(&mut self)
        requires
            old(self).wf(),
        ensures
            final(self).wf(),
            final(self).clipboard@ == clip_of(old(self).selection@, old(self).ws(), old(self).cs(),
                copy_offset(old(self).selection@, old(self).ws(), old(self).cs())),
            final(self).history == old(self).history,
            final(self).nodes == old(self).nodes,
            final(self).cs() == old(self).cs(),
            final(self).ws() == old(self).ws(),
            final(self).selection == old(self).selection,
            forall|j: int| 0 <= j < final(self).clipboard@.len() ==> clip_nonneg(#[trigger] final(self).clipboard@[j]),
    {
        proof {
            let sel = self.selection@;
            let off = copy_offset(sel, self.ws(), self.cs());
            lemma_copy_offset(sel, self.ws(), self.cs());
            if off.0 != 0 {
                let i = choose|i: int| 0 <= i < sel.len() && elem_has_x(#[trigger] sel[i], self.ws(), self.cs(), off.0);
                match sel[i] {
                    ElemIndex::Comp(c) => { assert(self.cs()[c].pos.in_range()); },
                    ElemIndex::Wire(w) => { assert(self.ws()[w].start.in_range() && self.ws()[w].end.in_range()); },
                }
            }
            if off.1 != 0 {
                let i = choose|i: int| 0 <= i < sel.len() && elem_has_y(#[trigger] sel[i], self.ws(), self.cs(), off.1);
                match sel[i] {
                    ElemIndex::Comp(c) => { assert(self.cs()[c].pos.in_range()); },
                    ElemIndex::Wire(w) => { assert(self.ws()[w].start.in_range() && self.ws()[w].end.in_range()); },
                }
            }
            lemma_clip_nonneg(sel, self.ws(), self.cs(), off);
        }
        self.clipboard.clear();
        let ghost sel = self.selection@;
        let ghost ws = self.ws();
        let ghost cs = self.cs();
        let mut ox: i32 = 0;
        let mut oy: i32 = 0;
        let mut i: usize = 0;
        while i < self.selection.len()
            invariant
                sel == self.selection@,
                ws == self.ws(),
                cs == self.cs(),
                self.wf(),
                0 <= i <= sel.len(),
                (ox as int, oy as int) == copy_offset(sel.take(i as int), ws, cs),
                self.selection == old(self).selection,
                -16777216 <= ox <= 0,
                -16777216 <= oy <= 0,
            decreases sel.len() - i,
        {
            proof {
                assert(sel.take(i + 1).drop_last() == sel.take(i as int));
            }
            match self.selection[i] {
                ElemIndex::Comp(c) => {
                    match self.comps.get(c) {
                        Some(comp) => {
                            if comp.pos.x < ox { ox = comp.pos.x; }
                            if comp.pos.y < oy { oy = comp.pos.y; }
                        },
                        None => {},
                    }
                },
                ElemIndex::Wire(w) => {
                    match self.wires.wires.get(w) {
                        Some(wire) => {
                            if wire.start.x < ox { ox = wire.start.x; }
                            if wire.start.y < oy { oy = wire.start.y; }
                            if wire.end.x < ox { ox = wire.end.x; }
                            if wire.end.y < oy { oy = wire.end.y; }
                        },
                        None => {},
                    }
                },
            }
            i = i + 1;
        }
        proof {
            assert(sel.take(sel.len() as int) == sel);
        }
        let off = IVec2 { x: ox, y: oy };
        let mut i: usize = 0;
        while i < self.selection.len()
            invariant
                sel == self.selection@,
                ws == self.ws(),
                cs == self.cs(),
                self.wf(),
                0 <= i <= sel.len(),
                (off.x as int, off.y as int) == copy_offset(sel, ws, cs),
                -16777216 <= off.x <= 0,
                -16777216 <= off.y <= 0,
                self.clipboard@ == clip_of(sel.take(i as int), ws, cs, copy_offset(sel, ws, cs)),
                self.selection == old(self).selection,
                self.history == old(self).history,
                self.nodes == old(self).nodes,
            decreases sel.len() - i,
        {
            proof {
                assert(sel.take(i + 1).drop_last() == sel.take(i as int));
            }
            match self.selection[i] {
                ElemIndex::Comp(c) => {
                    match self.comps.get(c) {
                        Some(comp) => {
                            let e = ClipboardElement::Component { kind: comp.kind, pos: comp.pos.minus(off) };
                            self.clipboard.push(e);
                        },
                        None => {},
                    }
                },
                ElemIndex::Wire(w) => {
                    match self.wires.wires.get(w) {
                        Some(wire) => {
                            let e = ClipboardElement::Wire { start: wire.start.minus(off), end: wire.end.minus(off) };
                            self.clipboard.push(e);
                        },
                        None => {},
                    }
                },
            }
            i = i + 1;
        }
        proof {
            assert(sel.take(sel.len() as int) == sel);
        }
    }

    /// Pastes the clipboard with its corner at `at`, as one undoable step:
    /// each component is placed (see `add_comp`) and each wire added (see
    /// `checked_add_wire`); an element that would leave the admissible
    /// range is skipped.
    pub fn paste(&mut self, at: IVec2)
        requires
            old(self).wf(),
            !old(self).history.recording,
        ensures
            final(self).wf(),
            !final(self).history.recording,
            final(self).history.cursor == old(self).history.cursor + 1,
            final(self).selection@ == old(self).selection@,
            final(self).clipboard@ == old(self).clipboard@,
            old(self).cs().dom().subset_of(final(self).cs().dom()),
            forall|k: CompKey| #[trigger] old(self).cs().contains_key(k) ==> final(self).cs()[k] == old(self).cs()[k],
            forall|k: CompKey| #[trigger] final(self).cs().contains_key(k) && !old(self).cs().contains_key(k)
                ==> pasted_from(old(self).clipboard@, at, final(self).cs()[k]),
            exists|snaps: Seq<Snap>, apps: Seq<bool>| #![trigger snaps.len(), apps.len()] {
                let clip = old(self).clipboard@;
                &&& snaps.len() == clip.len() + 1 && apps.len() == clip.len()
                &&& snaps[0] == snap_of(*old(self))
                &&& snaps[clip.len() as int] == snap_of(*final(self))
                &&& forall|j: int| 0 <= j < clip.len() ==> #[trigger] paste_step(snaps[j], snaps[j + 1], clip[j], at, apps[j])
            },
    {
        self.start_record();
        assert(self.clipboard@ == old(self).clipboard@);
        let ghost mut snaps: Seq<Snap> = seq![snap_of(*self)];
        let ghost mut apps: Seq<bool> = Seq::empty();
        let mut i: usize = 0;
        while i < self.clipboard.len()
            invariant
                self.wf(),
                self.history.recording,
                self.history.cursor == old(self).history.cursor,
                self.clipboard@ == old(self).clipboard@,
                self.selection@ == old(self).selection@,
                0 <= i <= self.clipboard@.len(),
                old(self).cs().dom().subset_of(self.cs().dom()),
                forall|k: CompKey| #[trigger] old(self).cs().contains_key(k) ==> self.cs()[k] == old(self).cs()[k],
                forall|k: CompKey| #[trigger] self.cs().contains_key(k) && !old(self).cs().contains_key(k)
                    ==> pasted_from(old(self).clipboard@, at, self.cs()[k]),
                snaps.len() == i + 1 && apps.len() == i,
                snaps[0] == snap_of(*old(self)),
                snaps[i as int] == snap_of(*self),
                forall|j: int| 0 <= j < i ==> #[trigger] paste_step(snaps[j], snaps[j + 1], old(self).clipboard@[j], at, apps[j]),
            decreases self.clipboard@.len() - i,
        {
            let ghost cs0 = self.cs();
            let ghost s0 = snap_of(*self);
            let ghost e0 = self.clipboard@[i as int];
            let mut stepped = false;
            match self.clipboard[i] {
                ClipboardElement::Component { kind, pos } => {
                    match shifted(at, pos) {
                        Some(p) => {
                            let applied = self.add_and_execute(Action::AddComp { to: p, kind });
                            stepped = applied;
                            proof {
                                assert(p == mk(vadd(at, pos)));
                                assert(shift(at, pos) == Some(p));
                                if applied {
                                    let e = self.clipboard@[i as int];
                                    assert forall|k: CompKey| #[trigger] self.cs().contains_key(k) && !old(self).cs().contains_key(k)
                                        implies pasted_from(old(self).clipboard@, at, self.cs()[k]) by {
                                        if !cs0.contains_key(k) {
                                            assert(self.cs()[k].kind == kind && self.cs()[k].pos == p);
                                            assert(e == ClipboardElement::Component { kind, pos });
                                            assert(component_pasted(e, at, self.cs()[k]));
                                        } else {
                                            assert(self.cs()[k] == cs0[k]);
                                        }
                                    }
                                }
                            }
                        },
                        None => {},
                    }
                },
                ClipboardElement::Wire { start, end } => {
                    match (shifted(at, start), shifted(at, end)) {
                        (Some(s), Some(e)) => {
                            proof {
                                assert(s == mk(vadd(at, start)));
                                assert(e == mk(vadd(at, end)));
                            }
                            self.checked_add_wire(s, e);
                        },
                        _ => {},
                    }
                },
            }
            proof {
                assert(paste_step(s0, snap_of(*self), e0, at, stepped));
                let ns = snaps.push(snap_of(*self));
                assert forall|j: int| 0 <= j < i + 1 implies #[trigger] paste_step(ns[j], ns[j + 1], old(self).clipboard@[j], at, apps.push(stepped)[j]) by {
                    if j < i {
                        assert(ns[j] == snaps[j]);
                        assert(ns[j + 1] == snaps[j + 1]);
                        assert(apps.push(stepped)[j] == apps[j]);
                    }
                }
                snaps = ns;
                apps = apps.push(stepped);
            }
            i = i + 1;
        }
        self.end_record();
    }

    /// A canvas holding the starting circuit, recorded as one step: a NAND,
    /// an OR and an AND gate, two inputs wired to the AND gate's inputs, and
    /// a wire from the AND gate's output.
    #[verifier::spinoff_prover]
    #[verifier::rlimit(40)]
    pub fn new() -> (c: Canvas)
        ensures
            c.wf(),
            !c.history.recording,
            c.history.cursor == 1,
            c.history.log().len() == 1,
            has_comp(c.cs(), CompKind::NandGate, IVec2 { x: 0i32, y: 5i32 }),
            has_comp(c.cs(), CompKind::OrGate, IVec2 { x: 0i32, y: -5i32 }),
            has_comp(c.cs(), CompKind::AndGate, IVec2 { x: 0i32, y: 0i32 }),
            forall|k: CompKey| #[trigger] c.cs().contains_key(k) ==> starting_comp(c.cs()[k]),
            c.ws().dom().len() == 3,
            has_wire(c.ws(), IVec2 { x: 0i32, y: 1i32 }, IVec2 { x: -5i32, y: 1i32 }),
            has_wire(c.ws(), IVec2 { x: 0i32, y: 3i32 }, IVec2 { x: -5i32, y: 3i32 }),
            has_wire(c.ws(), IVec2 { x: 4i32, y: 2i32 }, IVec2 { x: 8i32, y: 2i32 }),
            c.selection@.len() == 0,
            c.clipboard@.len() == 0,
    {
        let mut s = Canvas::blank();
        s.start_record();
        proof {
            let p = IVec2 { x: 0i32, y: 5i32 };
            assert forall|i: int| 0 <= i < spec_templates(CompKind::NandGate).len()
                implies pair_in_range(vadd(p, #[trigger] spec_templates(CompKind::NandGate)[i].pos)) by {}
            assert(fits(CompKind::NandGate, p));
            assert(placeable(CompKind::NandGate, p, s.nodes));
        }
        let ghost (cs0, ws0, n0) = (s.cs(), s.ws(), s.nodes);
        let added = s.add_and_execute(Action::AddComp { to: IVec2::new(0, 5), kind: CompKind::NandGate });
        proof {
            lemma_added_comp(cs0, ws0, n0, s.cs(), s.ws(), IVec2 { x: 0i32, y: 5i32 }, CompKind::NandGate, added);
        }
        assert(has_comp(s.cs(), CompKind::NandGate, IVec2 { x: 0i32, y: 5i32 }));
        proof {
            let p = IVec2 { x: 0i32, y: -5i32 };
            assert forall|i: int| 0 <= i < spec_templates(CompKind::OrGate).len()
                implies pair_in_range(vadd(p, #[trigger] spec_templates(CompKind::OrGate)[i].pos)) by {}
            assert(fits(CompKind::OrGate, p));
            assert(placeable(CompKind::OrGate, p, s.nodes));
        }
        let ghost (cs0, ws0, n0) = (s.cs(), s.ws(), s.nodes);
        let added = s.add_and_execute(Action::AddComp { to: IVec2::new(0, -5), kind: CompKind::OrGate });
        proof {
            lemma_added_comp(cs0, ws0, n0, s.cs(), s.ws(), IVec2 { x: 0i32, y: -5i32 }, CompKind::OrGate, added);
        }
        assert(has_comp(s.cs(), CompKind::NandGate, IVec2 { x: 0i32, y: 5i32 }));
        assert(has_comp(s.cs(), CompKind::OrGate, IVec2 { x: 0i32, y: -5i32 }));
        proof {
            let p = IVec2 { x: 0i32, y: 0i32 };
            assert forall|i: int| 0 <= i < spec_templates(CompKind::AndGate).len()
                implies pair_in_range(vadd(p, #[trigger] spec_templates(CompKind::AndGate)[i].pos)) by {}
            assert(fits(CompKind::AndGate, p));
            assert(placeable(CompKind::AndGate, p, s.nodes));
        }
        let ghost (cs0, ws0, n0) = (s.cs(), s.ws(), s.nodes);
        let added = s.add_and_execute(Action::AddComp { to: IVec2::new(0, 0), kind: CompKind::AndGate });
        proof {
            lemma_added_comp(cs0, ws0, n0, s.cs(), s.ws(), IVec2 { x: 0i32, y: 0i32 }, CompKind::AndGate, added);
        }
        assert(has_comp(s.cs(), CompKind::NandGate, IVec2 { x: 0i32, y: 5i32 }));
        assert(has_comp(s.cs(), CompKind::OrGate, IVec2 { x: 0i32, y: -5i32 }));
        assert(has_comp(s.cs(), CompKind::AndGate, IVec2 { x: 0i32, y: 0i32 }));
        assert(forall|k: CompKey| #[trigger] s.cs().contains_key(k) ==> starting_comp(s.cs()[k]));
        let ghost ws_e = s.ws();
        assert(ws_e.dom().is_empty());
        s.checked_add_wire(IVec2::new(0, 1), IVec2::new(-5, 1));
        let ghost w1 = choose|w: WireKey| !ws_e.contains_key(w) && s.ws().dom() == ws_e.dom().insert(w)
            && s.ws()[w].start == IVec2 { x: 0i32, y: 1i32 } && s.ws()[w].end == IVec2 { x: -5i32, y: 1i32 }
            && forall|k: WireKey| ws_e.contains_key(k) ==> s.ws()[k] == ws_e[k];
        proof {
            assert(s.ws().dom() =~= Set::<WireKey>::empty().insert(w1));
        }
        let ghost (cs0, ws0, n0) = (s.cs(), s.ws(), s.nodes);
        let added = s.add_and_execute(Action::AddComp { to: IVec2::new(-7, 0), kind: CompKind::Input { state: false } });
        proof {
            lemma_added_comp(cs0, ws0, n0, s.cs(), s.ws(), IVec2 { x: -7i32, y: 0i32 }, CompKind::Input { state: false }, added);
        }
        let ghost ws1 = s.ws();
        proof {
            assert(ws1.dom() =~= Set::<WireKey>::empty().insert(w1));
            assert(ws1 == ws0);
            assert(ws1[w1].start == IVec2 { x: 0i32, y: 1i32 } && ws1[w1].end == IVec2 { x: -5i32, y: 1i32 });
            assert(!spec_touches(ws1[w1].start, ws1[w1].end, IVec2 { x: 0i32, y: 3i32 }));
            assert(!spec_touches(ws1[w1].start, ws1[w1].end, IVec2 { x: -5i32, y: 3i32 }));
            assert(!spec_touches(IVec2 { x: 0i32, y: 3i32 }, IVec2 { x: -5i32, y: 3i32 }, ws1[w1].start));
            assert(!spec_touches(IVec2 { x: 0i32, y: 3i32 }, IVec2 { x: -5i32, y: 3i32 }, ws1[w1].end));
            assert(!meets(ws1[w1], IVec2 { x: 0i32, y: 3i32 }, IVec2 { x: -5i32, y: 3i32 }));
        }
        s.checked_add_wire(IVec2::new(0, 3), IVec2::new(-5, 3));
        let ghost w2 = choose|w: WireKey| !ws1.contains_key(w) && s.ws().dom() == ws1.dom().insert(w)
            && s.ws()[w].start == IVec2 { x: 0i32, y: 3i32 } && s.ws()[w].end == IVec2 { x: -5i32, y: 3i32 }
            && forall|k: WireKey| ws1.contains_key(k) ==> s.ws()[k] == ws1[k];
        let ghost (cs0, ws0, n0) = (s.cs(), s.ws(), s.nodes);
        let added = s.add_and_execute(Action::AddComp { to: IVec2::new(-7, 2), kind: CompKind::Input { state: false } });
        proof {
            lemma_added_comp(cs0, ws0, n0, s.cs(), s.ws(), IVec2 { x: -7i32, y: 2i32 }, CompKind::Input { state: false }, added);
        }
        let ghost ws2 = s.ws();
        proof {
            assert(ws2.dom() =~= Set::<WireKey>::empty().insert(w1).insert(w2));
            assert(ws2[w1] == ws1[w1]);
            assert(!meets(ws2[w1], IVec2 { x: 4i32, y: 2i32 }, IVec2 { x: 8i32, y: 2i32 }));
            assert(!meets(ws2[w2], IVec2 { x: 4i32, y: 2i32 }, IVec2 { x: 8i32, y: 2i32 }));
            assert forall|k: WireKey| #[trigger] ws2.contains_key(k) implies !meets(ws2[k], IVec2 { x: 4i32, y: 2i32 }, IVec2 { x: 8i32, y: 2i32 }) by {
                assert(k == w1 || k == w2);
            }
        }
        s.checked_add_wire(IVec2::new(4, 2), IVec2::new(8, 2));
        let ghost w3 = choose|w: WireKey| !ws2.contains_key(w) && s.ws().dom() == ws2.dom().insert(w)
            && s.ws()[w].start == IVec2 { x: 4i32, y: 2i32 } && s.ws()[w].end == IVec2 { x: 8i32, y: 2i32 }
            && forall|k: WireKey| ws2.contains_key(k) ==> s.ws()[k] == ws2[k];
        proof {
            assert(s.ws().dom() =~= Set::<WireKey>::empty().insert(w1).insert(w2).insert(w3));
            assert(s.ws()[w1] == ws1[w1]);
            assert(s.ws()[w2] == ws2[w2]);
            assert(s.ws().contains_key(w1) && s.ws()[w1].start == IVec2 { x: 0i32, y: 1i32 } && s.ws()[w1].end == IVec2 { x: -5i32, y: 1i32 });
            assert(s.ws().contains_key(w2) && s.ws()[w2].start == IVec2 { x: 0i32, y: 3i32 } && s.ws()[w2].end == IVec2 { x: -5i32, y: 3i32 });
            assert(has_wire(s.ws(), IVec2 { x: 0i32, y: 1i32 }, IVec2 { x: -5i32, y: 1i32 }));
            assert(has_wire(s.ws(), IVec2 { x: 0i32, y: 3i32 }, IVec2 { x: -5i32, y: 3i32 }));
            assert(s.ws().dom().contains(w3));
            assert(s.ws().contains_key(w3) && s.ws()[w3].start == IVec2 { x: 4i32, y: 2i32 } && s.ws()[w3].end == IVec2 { x: 8i32, y: 2i32 });
            assert(has_wire(s.ws(), IVec2 { x: 4i32, y: 2i32 }, IVec2 { x: 8i32, y: 2i32 }));
        }
        s.end_record();
        s
    }

    /// Deletes every selected element that still exists, as one undoable
    /// step, and clears the selection.
    pub fn delete_selection(&mut self)
        requires
            old(self).wf(),
            !old(self).history.recording,
        ensures
            final(self).wf(),
            !final(self).history.recording,
            final(self).history.cursor == old(self).history.cursor + 1,
            final(self).selection@ == Seq::<ElemIndex>::empty(),
            final(self).clipboard@ == old(self).clipboard@,
            final(self).cs().dom().subset_of(old(self).cs().dom()),
            final(self).ws().dom().subset_of(old(self).ws().dom()),
            forall|k: CompKey| #[trigger] final(self).cs().contains_key(k) ==> final(self).cs()[k] == old(self).cs()[k],
            forall|k: WireKey| #[trigger] final(self).ws().contains_key(k) ==> final(self).ws()[k] == old(self).ws()[k],
            exists|snaps: Seq<Snap>, acts: Seq<Option<Action>>, apps: Seq<bool>|
                #![trigger snaps.len(), recorded(acts, apps)] {
                let sel = old(self).selection@;
                let l0 = started(old(self).history);
                let c = old(self).history.cursor as int;
                &&& snaps.len() == sel.len() + 1 && acts.len() == sel.len() && apps.len() == sel.len()
                &&& snaps[0] == snap_of(*old(self))
                &&& snaps[sel.len() as int] == snap_of(*final(self))
                &&& forall|j: int| 0 <= j < sel.len() ==> {
                    &&& #[trigger] acts[j] == deletion_of(snaps[j], sel[j])
                    &&& apps[j] == acts[j] is Some
                    &&& snap_step(snaps[j], snaps[j + 1], acts[j], apps[j])
                }
                &&& final(self).history.log() == l0.update(c, l0[c] + recorded(acts, apps))
            },
    {
        self.start_record();
        let sel = copy_elems(&self.selection);
        let ghost l0 = started(old(self).history);
        let ghost c = old(self).history.cursor as int;
        let ghost mut snaps: Seq<Snap> = seq![snap_of(*self)];
        let ghost mut acts: Seq<Option<Action>> = Seq::empty();
        let ghost mut apps: Seq<bool> = Seq::empty();
        let mut i: usize = 0;
        while i < sel.len()
            invariant
                self.wf(),
                self.history.recording,
                self.history.cursor == old(self).history.cursor,
                0 <= i <= sel@.len(),
                l0 == started(old(self).history),
                c == old(self).history.cursor,
                0 <= c < l0.len(),
                self.clipboard@ == old(self).clipboard@,
                self.cs().dom().subset_of(old(self).cs().dom()),
                self.ws().dom().subset_of(old(self).ws().dom()),
                forall|k: CompKey| #[trigger] self.cs().contains_key(k) ==> self.cs()[k] == old(self).cs()[k],
                forall|k: WireKey| #[trigger] self.ws().contains_key(k) ==> self.ws()[k] == old(self).ws()[k],
                self.history.log().len() == l0.len(),
                forall|ii: int| 0 <= ii < l0.len() && ii != c ==> #[trigger] self.history.log()[ii] == l0[ii],
                l0[c].is_prefix_of(self.history.log()[c]),
                sel@ == old(self).selection@,
                snaps.len() == i + 1 && acts.len() == i && apps.len() == i,
                snaps[0] == snap_of(*old(self)),
                snaps[i as int] == snap_of(*self),
                forall|j: int| 0 <= j < i ==> {
                    &&& #[trigger] acts[j] == deletion_of(snaps[j], sel@[j])
                    &&& apps[j] == acts[j] is Some
                    &&& snap_step(snaps[j], snaps[j + 1], acts[j], apps[j])
                },
                self.history.log() == l0.update(c, l0[c] + recorded(acts, apps)),
            decreases sel@.len() - i,
        {
            let ghost s0 = snap_of(*self);
            let ghost lb = self.history.log();
            let ghost act = deletion_of(s0, sel@[i as int]);
            let mut applied = false;
            match sel[i] {
                ElemIndex::Comp(ck) => {
                    match self.comps.get(ck) {
                        Some(comp) => {
                            let a = Action::DeleteComp { at: comp.pos, kind: comp.kind };
                            applied = self.add_and_execute(a);
                            proof {
                                assert(s0.cs.contains_key(ck) && s0.cs[ck].pos == comp.pos);
                                assert(applied);
                                assert(act == Some(a));
                            }
                        },
                        None => {},
                    }
                },
                ElemIndex::Wire(w) => {
                    match self.wires.wires.get(w) {
                        Some(wire) => {
                            let a = Action::DeleteWire { from: wire.start, to: wire.end };
                            applied = self.add_and_execute(a);
                            proof {
                                assert(s0.ws.contains_key(w) && wire_matches(s0.ws[w], wire.start, wire.end, false));
                                assert(applied);
                                assert(act == Some(a));
                            }
                        },
                        None => {},
                    }
                },
            }
            proof {
                let l = self.history.log();
                assert(l0[c].is_prefix_of(l[c])) by {
                    assert(lb[c].is_prefix_of(l[c]));
                }
                let acts2 = acts.push(act);
                let apps2 = apps.push(applied);
                assert(acts2.drop_last() =~= acts);
                assert(apps2.subrange(0, acts2.len() - 1) =~= apps);
                assert(recorded(acts2, apps2) == recorded(acts, apps) + (match act {
                    Some(x) => applied_seq(x, applied),
                    None => Seq::<Action>::empty(),
                }));
                let r = recorded(acts, apps);
                assert(c < lb.len());
                if applied {
                    let x = act->0;
                    assert(act == Some(x));
                    assert(l[c] == lb[c].push(x));
                    assert(lb[c] == l0[c] + r);
                    assert((l0[c] + r).push(x) =~= l0[c] + r + applied_seq(x, applied));
                    assert(recorded(acts2, apps2) == r + applied_seq(x, applied));
                    assert(l =~= l0.update(c, l0[c] + r + applied_seq(x, applied)));
                    assert(l0[c] + (r + applied_seq(x, applied)) =~= l0[c] + r + applied_seq(x, applied));
                } else {
                    assert(act is None);
                    assert(l == lb);
                    assert(recorded(acts2, apps2) == r + Seq::<Action>::empty());
                    assert(r + Seq::<Action>::empty() =~= r);
                }
                assert(l =~= l0.update(c, l0[c] + recorded(acts2, apps2)));
                assert(snap_step(s0, snap_of(*self), act, applied));
                snaps = snaps.push(snap_of(*self));
                acts = acts2;
                apps = apps2;
                assert forall|j: int| 0 <= j < i + 1 implies {
                    &&& #[trigger] acts[j] == deletion_of(snaps[j], sel@[j])
                    &&& apps[j] == acts[j] is Some
                    &&& snap_step(snaps[j], snaps[j + 1], acts[j], apps[j])
                } by {
                    if j < i {
                        assert(snaps[j] == snaps.drop_last()[j]);
                        assert(snaps[j + 1] == snaps.drop_last()[j + 1]);
                    }
                }
            }
            i = i + 1;
        }
        self.selection.clear();
        self.end_record();
    }

    /// Whether the area a `kind` component occupies at `a` overlaps the
    /// area of some other component than `k`.
    pub fn overlaps_other(&self, k: CompKey, kind: CompKind, a: IVec2) -> (r: bool)
        requires
            self.wf(),
            a.in_range(),
        ensures
            r == exists|k2: CompKey| #[trigger] self.cs().contains_key(k2) && k2 != k
                && boxes_overlap(a, spec_hitbox(kind), self.cs()[k2].pos, spec_hitbox(self.cs()[k2].kind)),
    {
        let keys = self.comps.keys();
        let ghost ks = keys@;
        let hb = kind.hitbox();
        let mut i: usize = 0;
        while i < keys.len()
            invariant
                ks == keys@,
                crate::arena::comp_keys_listed(ks, self.cs()),
                self.wf(),
                a.in_range(),
                hb == spec_hitbox(kind),
                0 <= i <= ks.len(),
                forall|j: int| 0 <= j < i ==> !(#[trigger] ks[j] != k
                    && boxes_overlap(a, spec_hitbox(kind), self.cs()[ks[j]].pos, spec_hitbox(self.cs()[ks[j]].kind))),
            decreases ks.len() - i,
        {
            let k2 = keys[i];
            proof {
                assert(ks.to_set().contains(k2));
            }
            if k2 != k {
                let c2 = self.comps.get(k2).unwrap();
                let hb2 = c2.kind.hitbox();
                let b1 = c2.pos;
                let ax2 = a.x as i64 + hb.x as i64;
                let ay2 = a.y as i64 + hb.y as i64;
                let bx2 = b1.x as i64 + hb2.x as i64;
                let by2 = b1.y as i64 + hb2.y as i64;
                if (a.x as i64) < bx2 && ax2 > b1.x as i64 && (a.y as i64) < by2 && ay2 > b1.y as i64 {
                    return true;
                }
            }
            i = i + 1;
        }
        proof {
            assert forall|k2: CompKey| #[trigger] self.cs().contains_key(k2) && k2 != k implies
                !boxes_overlap(a, spec_hitbox(kind), self.cs()[k2].pos, spec_hitbox(self.cs()[k2].kind)) by {
                assert(ks.to_set().contains(k2));
                let j = choose|j: int| 0 <= j < ks.len() && ks[j] == k2;
            }
        }
        false
    }

    /// Handles a request to drag component `k` to `newpos`: if its area
    /// there overlaps another component, nothing happens; otherwise, if it
    /// actually moves, every selected element is moved by the same amount
    /// (recorded in the step being recorded). Returns whether it moved.
    pub fn move_selection(&mut self, k: CompKey, newpos: IVec2) -> (moved: bool)
        requires
            old(self).wf(),
            old(self).history.recording,
        ensures
            final(self).wf(),
            final(self).history.recording,
            extends_step(old(self).history, final(self).history),
            !moved ==> *final(self) == *old(self),
            moved == ({
                let c = old(self).cs()[k];
                &&& newpos.in_range()
                &&& old(self).cs().contains_key(k)
                &&& !(exists|k2: CompKey| #[trigger] old(self).cs().contains_key(k2) && k2 != k
                    && boxes_overlap(newpos, spec_hitbox(c.kind), old(self).cs()[k2].pos, spec_hitbox(old(self).cs()[k2].kind)))
                &&& newpos != c.pos
                &&& IVec2 { x: (newpos.x - c.pos.x) as i32, y: (newpos.y - c.pos.y) as i32 }.in_range()
            }),
            final(self).selection@ == old(self).selection@,
            final(self).clipboard@ == old(self).clipboard@,
            moved ==> exists|snaps: Seq<Snap>, acts: Seq<Option<Action>>, apps: Seq<bool>|
                #![trigger snaps.len(), recorded(acts, apps)] {
                let sel = old(self).selection@;
                let l0 = old(self).history.log();
                let c = old(self).history.cursor as int;
                let by = offset(old(self).cs()[k].pos, newpos);
                &&& snaps.len() == sel.len() + 1 && acts.len() == sel.len() && apps.len() == sel.len()
                &&& snaps[0] == snap_of(*old(self))
                &&& snaps[sel.len() as int] == snap_of(*final(self))
                &&& forall|j: int| 0 <= j < sel.len() ==> {
                    &&& #[trigger] acts[j] == move_of(snaps[j], sel[j], by)
                    &&& snap_step(snaps[j], snaps[j + 1], acts[j], apps[j])
                }
                &&& final(self).history.log() == l0.update(c, l0[c] + recorded(acts, apps))
            },
    {
        if !crate::history::in_range(newpos) {
            return false;
        }
        let (kind, pos) = match self.comps.get(k) {
            Some(c) => (c.kind, c.pos),
            None => {
                return false;
            },
        };
        if self.overlaps_other(k, kind, newpos) {
            return false;
        }
        if newpos == pos {
            return false;
        }
        let by = newpos.minus(pos);
        if !crate::history::in_range(by) {
            return false;
        }
        let sel = copy_elems(&self.selection);
        let mut i: usize = 0;
        let ghost h0 = self.history;
        let ghost l0 = old(self).history.log();
        let ghost cur = old(self).history.cursor as int;
        let ghost mut snaps: Seq<Snap> = seq![snap_of(*self)];
        let ghost mut acts: Seq<Option<Action>> = Seq::empty();
        let ghost mut apps: Seq<bool> = Seq::empty();
        proof {
            assert(by == offset(old(self).cs()[k].pos, newpos));
            assert(recorded(acts, apps) == Seq::<Action>::empty());
            assert(l0[cur] + Seq::<Action>::empty() =~= l0[cur]);
            assert(l0.update(cur, l0[cur]) =~= l0);
        }
        while i < sel.len()
            invariant
                self.wf(),
                self.history.recording,
                extends_step(h0, self.history),
                h0 == old(self).history,
                by.in_range(),
                by == offset(old(self).cs()[k].pos, newpos),
                0 <= i <= sel@.len(),
                self.selection@ == old(self).selection@,
                self.clipboard@ == old(self).clipboard@,
                sel@ == old(self).selection@,
                l0 == old(self).history.log(),
                cur == old(self).history.cursor,
                0 <= cur < l0.len(),
                self.history.cursor == cur,
                snaps.len() == i + 1 && acts.len() == i && apps.len() == i,
                snaps[0] == snap_of(*old(self)),
                snaps[i as int] == snap_of(*self),
                forall|j: int| 0 <= j < i ==> {
                    &&& #[trigger] acts[j] == move_of(snaps[j], sel@[j], by)
                    &&& snap_step(snaps[j], snaps[j + 1], acts[j], apps[j])
                },
                self.history.log() == l0.update(cur, l0[cur] + recorded(acts, apps)),
            decreases sel@.len() - i,
        {
            let ghost hb = self.history;
            let ghost s0 = snap_of(*self);
            let ghost lb = self.history.log();
            let ghost act = move_of(s0, sel@[i as int], by);
            let mut applied = false;
            match sel[i] {
                ElemIndex::Comp(c) => {
                    match self.comps.get(c) {
                        Some(comp) => {
                            let from = comp.pos;
                            match from.checked_plus(by) {
                                Some(to) => {
                                    applied = self.add_and_execute(Action::MoveComp { from, to });
                                    proof {
                                        assert(to == mk(vadd(from, by)));
                                        assert(act == Some(Action::MoveComp { from, to }));
                                    }
                                },
                                None => {},
                            }
                        },
                        None => {},
                    }
                },
                ElemIndex::Wire(w) => {
                    match self.wires.wires.get(w) {
                        Some(wire) => {
                            let a = Action::MoveWire { from: wire.start, to: wire.end, by };
                            applied = self.add_and_execute(a);
                            proof {
                                assert(act == Some(a));
                            }
                        },
                        None => {},
                    }
                },
            }
            proof {
                lemma_extends_step_trans(h0, hb, self.history);
                let l = self.history.log();
                let acts2 = acts.push(act);
                let apps2 = apps.push(applied);
                assert(acts2.drop_last() =~= acts);
                assert(apps2.subrange(0, acts2.len() - 1) =~= apps);
                let r = recorded(acts, apps);
                assert(cur < lb.len());
                if applied {
                    let x = act->0;
                    assert(act == Some(x));
                    assert(l[cur] == lb[cur].push(x));
                    assert(lb[cur] == l0[cur] + r);
                    assert((l0[cur] + r).push(x) =~= l0[cur] + r + applied_seq(x, applied));
                    assert(recorded(acts2, apps2) == r + applied_seq(x, applied));
                    assert(l =~= l0.update(cur, l0[cur] + r + applied_seq(x, applied)));
                    assert(l0[cur] + (r + applied_seq(x, applied)) =~= l0[cur] + r + applied_seq(x, applied));
                } else {
                    assert(l == lb);
                    if act is Some {
                        assert(applied_seq(act->0, applied) =~= Seq::<Action>::empty());
                    }
                    assert(recorded(acts2, apps2) == r + Seq::<Action>::empty());
                    assert(r + Seq::<Action>::empty() =~= r);
                }
                assert(l =~= l0.update(cur, l0[cur] + recorded(acts2, apps2)));
                assert(snap_step(s0, snap_of(*self), act, applied));
                snaps = snaps.push(snap_of(*self));
                acts = acts2;
                apps = apps2;
                assert forall|j: int| 0 <= j < i + 1 implies {
                    &&& #[trigger] acts[j] == move_of(snaps[j], sel@[j], by)
                    &&& snap_step(snaps[j], snaps[j + 1], acts[j], apps[j])
                } by {
                    if j < i {
                        assert(snaps[j] == snaps.drop_last()[j]);
                        assert(snaps[j + 1] == snaps.drop_last()[j + 1]);
                    }
                }
            }
            i = i + 1;
        }
        true
    }

    /// Selects every component whose position, and every wire whose two
    /// ends, lie in the box spanned by `a` and `b` (edges included): they
    /// are marked selected and appended to the selection.
    pub fn select_in_box(&mut self, a: IVec2, b: IVec2)
        requires
            old(self).wf(),
        ensures
            final(self).wf(),
            final(self).history == old(self).history,
            final(self).nodes == old(self).nodes,
            final(self).clipboard@ == old(self).clipboard@,
            final(self).cs().dom() == old(self).cs().dom(),
            final(self).ws().dom() == old(self).ws().dom(),
            old(self).selection@.len() <= final(self).selection@.len(),
            final(self).selection@.subrange(0, old(self).selection@.len() as int) == old(self).selection@,
            forall|i: int| old(self).selection@.len() <= i < final(self).selection@.len()
                ==> #[trigger] boxed(final(self).selection@[i], old(self).cs(), old(self).ws(), box_lo(a, b), box_hi(a, b)),
            forall|e: ElemIndex| #[trigger] boxed(e, old(self).cs(), old(self).ws(), box_lo(a, b), box_hi(a, b))
                ==> final(self).selection@.subrange(old(self).selection@.len() as int, final(self).selection@.len() as int).contains(e),
            forall|c: CompKey| #[trigger] final(self).cs().contains_key(c) ==> {
                &&& final(self).cs()[c].pos == old(self).cs()[c].pos
                &&& final(self).cs()[c].kind == old(self).cs()[c].kind
                &&& final(self).cs()[c].nodes@ == old(self).cs()[c].nodes@
                &&& final(self).cs()[c].selected == (old(self).cs()[c].selected
                    || in_box(old(self).cs()[c].pos, box_lo(a, b), box_hi(a, b)))
            },
            forall|w: WireKey| #[trigger] final(self).ws().contains_key(w) ==>
                final(self).ws()[w] == (Wire { selected: old(self).ws()[w].selected
                    || boxed(ElemIndex::Wire(w), old(self).cs(), old(self).ws(), box_lo(a, b), box_hi(a, b)), ..old(self).ws()[w] }),
    {
        let lo = IVec2 { x: if a.x < b.x { a.x } else { b.x }, y: if a.y < b.y { a.y } else { b.y } };
        let hi = IVec2 { x: if a.x > b.x { a.x } else { b.x }, y: if a.y > b.y { a.y } else { b.y } };
        let ghost n0 = old(self).selection@.len();
        let ghost oc = old(self).cs();
        let ghost ow = old(self).ws();
        let ckeys = self.comps.keys();
        let mut i: usize = 0;
        while i < ckeys.len()
            invariant
                lo == box_lo(a, b),
                hi == box_hi(a, b),
                n0 == old(self).selection@.len(),
                oc == old(self).cs(),
                ow == old(self).ws(),
                comp_keys_listed(ckeys@, oc),
                self.wf(),
                self.history == old(self).history,
                self.nodes == old(self).nodes,
                self.clipboard@ == old(self).clipboard@,
                self.cs().dom() == oc.dom(),
                self.ws() == ow,
                0 <= i <= ckeys@.len(),
                n0 <= self.selection@.len(),
                self.selection@.subrange(0, n0 as int) == old(self).selection@,
                forall|j: int| n0 <= j < self.selection@.len() ==> #[trigger] boxed(self.selection@[j], oc, ow, lo, hi),
                forall|j: int| 0 <= j < self.selection@.len() ==> !(#[trigger] self.selection@[j] is Wire) || j < n0,
                forall|j: int| 0 <= j < i && #[trigger] boxed(ElemIndex::Comp(ckeys@[j]), oc, ow, lo, hi)
                    ==> self.selection@.subrange(n0 as int, self.selection@.len() as int).contains(ElemIndex::Comp(ckeys@[j])),
                forall|c: CompKey| #[trigger] self.cs().contains_key(c) ==> {
                    &&& self.cs()[c].pos == oc[c].pos
                    &&& self.cs()[c].kind == oc[c].kind
                    &&& self.cs()[c].nodes@ == oc[c].nodes@
                    &&& self.cs()[c].selected == (oc[c].selected
                        || (in_box(oc[c].pos, lo, hi) && ckeys@.subrange(0, i as int).contains(c)))
                },
            decreases ckeys@.len() - i,
        {
            let k = ckeys[i];
            let ghost s1 = self.selection@;
            proof {
                assert(ckeys@.to_set().contains(k) ==> oc.contains_key(k));
                assert(ckeys@.contains(k));
            }
            match self.comps.get(k) {
                Some(c) => {
                    if check(c.pos, lo, hi) {
                        self.select(Some(ElemIndex::Comp(k)));
                        proof {
                            assert(self.selection@ == s1.push(ElemIndex::Comp(k)));
                            assert(self.selection@.subrange(0, n0 as int) =~= s1.subrange(0, n0 as int));
                            assert(boxed(ElemIndex::Comp(k), oc, ow, lo, hi));
                            assert(self.ws() =~= ow) by {
                                assert forall|w: WireKey| #[trigger] self.ws().contains_key(w) implies self.ws()[w] == ow[w] by {}
                            }
                        }
                    }
                },
                None => {},
            }
            proof {
                assert(ckeys@.subrange(0, i + 1) =~= ckeys@.subrange(0, i as int).push(k));
                let nsel = self.selection@;
                assert forall|j: int| 0 <= j < i + 1 && #[trigger] boxed(ElemIndex::Comp(ckeys@[j]), oc, ow, lo, hi)
                    implies nsel.subrange(n0 as int, nsel.len() as int).contains(ElemIndex::Comp(ckeys@[j])) by {
                    if j < i {
                        let e = ElemIndex::Comp(ckeys@[j]);
                        assert(s1.subrange(n0 as int, s1.len() as int).contains(e));
                        let t = choose|t: int| 0 <= t < s1.subrange(n0 as int, s1.len() as int).len()
                            && #[trigger] s1.subrange(n0 as int, s1.len() as int)[t] == e;
                        assert(nsel.subrange(n0 as int, nsel.len() as int)[t] == e);
                    } else {
                        let e = ElemIndex::Comp(k);
                        assert(nsel.subrange(n0 as int, nsel.len() as int)[nsel.len() - 1 - n0] == e);
                    }
                }
                assert forall|c: CompKey| #[trigger] self.cs().contains_key(c) implies
                    self.cs()[c].selected == (oc[c].selected || (in_box(oc[c].pos, lo, hi) && ckeys@.subrange(0, i + 1).contains(c))) by {
                    if c == k {
                        assert(ckeys@.subrange(0, i + 1)[i as int] == c);
                    } else {
                        assert(ckeys@.subrange(0, i + 1).contains(c) == ckeys@.subrange(0, i as int).contains(c)) by {
                            if ckeys@.subrange(0, i + 1).contains(c) {
                                let t = choose|t: int| 0 <= t < i + 1 && #[trigger] ckeys@.subrange(0, i + 1)[t] == c;
                                assert(ckeys@.subrange(0, i as int)[t] == c);
                            }
                        }
                    }
                }
            }
            i = i + 1;
        }
        proof {
            assert(ckeys@.subrange(0, ckeys@.len() as int) == ckeys@);
            assert forall|c: CompKey| #[trigger] self.cs().contains_key(c) implies
                self.cs()[c].selected == (oc[c].selected || in_box(oc[c].pos, lo, hi)) by {
                assert(oc.contains_key(c));
                assert(ckeys@.to_set().contains(c));
            }
            assert forall|c: CompKey| #[trigger] boxed(ElemIndex::Comp(c), oc, ow, lo, hi)
                implies self.selection@.subrange(n0 as int, self.selection@.len() as int).contains(ElemIndex::Comp(c)) by {
                assert(ckeys@.to_set().contains(c));
                let t = choose|t: int| 0 <= t < ckeys@.len() && #[trigger] ckeys@[t] == c;
                assert(boxed(ElemIndex::Comp(ckeys@[t]), oc, ow, lo, hi));
            }
        }
        let ghost nc = self.selection@.len();
        let wkeys = self.wires.wires.keys();
        let mut i: usize = 0;
        while i < wkeys.len()
            invariant
                lo == box_lo(a, b),
                hi == box_hi(a, b),
                n0 == old(self).selection@.len(),
                n0 <= nc <= self.selection@.len(),
                oc == old(self).cs(),
                ow == old(self).ws(),
                wire_keys_listed(wkeys@, ow),
                self.wf(),
                self.history == old(self).history,
                self.nodes == old(self).nodes,
                self.clipboard@ == old(self).clipboard@,
                self.cs().dom() == oc.dom(),
                self.ws().dom() == ow.dom(),
                0 <= i <= wkeys@.len(),
                self.selection@.subrange(0, n0 as int) == old(self).selection@,
                forall|j: int| n0 <= j < self.selection@.len() ==> #[trigger] boxed(self.selection@[j], oc, ow, lo, hi),
                forall|c: CompKey| #[trigger] boxed(ElemIndex::Comp(c), oc, ow, lo, hi)
                    ==> self.selection@.subrange(n0 as int, nc as int).contains(ElemIndex::Comp(c)),
                forall|j: int| 0 <= j < i && #[trigger] boxed(ElemIndex::Wire(wkeys@[j]), oc, ow, lo, hi)
                    ==> self.selection@.subrange(n0 as int, self.selection@.len() as int).contains(ElemIndex::Wire(wkeys@[j])),
                forall|c: CompKey| #[trigger] self.cs().contains_key(c) ==> {
                    &&& self.cs()[c].pos == oc[c].pos
                    &&& self.cs()[c].kind == oc[c].kind
                    &&& self.cs()[c].nodes@ == oc[c].nodes@
                    &&& self.cs()[c].selected == (oc[c].selected || in_box(oc[c].pos, lo, hi))
                },
                forall|w: WireKey| #[trigger] self.ws().contains_key(w) ==>
                    self.ws()[w] == (Wire { selected: ow[w].selected
                        || (boxed(ElemIndex::Wire(w), oc, ow, lo, hi) && wkeys@.subrange(0, i as int).contains(w)), ..ow[w] }),
            decreases wkeys@.len() - i,
        {
            let k = wkeys[i];
            let ghost s1 = self.selection@;
            proof {
                assert(wkeys@.contains(k));
                assert(wkeys@.to_set().contains(k));
            }
            match self.wires.wires.get(k) {
                Some(w) => {
                    if check(w.start, lo, hi) && check(w.end, lo, hi) {
                        proof {
                            assert(ow[k].start == w.start && ow[k].end == w.end);
                        }
                        self.select(Some(ElemIndex::Wire(k)));
                        proof {
                            assert(self.selection@ == s1.push(ElemIndex::Wire(k)));
                            assert(self.selection@.subrange(0, n0 as int) =~= s1.subrange(0, n0 as int));
                            assert(boxed(ElemIndex::Wire(k), oc, ow, lo, hi));
                            assert forall|c: CompKey| #[trigger] boxed(ElemIndex::Comp(c), oc, ow, lo, hi)
                                implies self.selection@.subrange(n0 as int, nc as int).contains(ElemIndex::Comp(c)) by {
                                assert(s1.subrange(n0 as int, nc as int) =~= self.selection@.subrange(n0 as int, nc as int));
                            }
                        }
                    }
                },
                None => {},
            }
            proof {
                assert(wkeys@.subrange(0, i + 1) =~= wkeys@.subrange(0, i as int).push(k));
                let nsel = self.selection@;
                assert forall|j: int| 0 <= j < i + 1 && #[trigger] boxed(ElemIndex::Wire(wkeys@[j]), oc, ow, lo, hi)
                    implies nsel.subrange(n0 as int, nsel.len() as int).contains(ElemIndex::Wire(wkeys@[j])) by {
                    if j < i {
                        let e = ElemIndex::Wire(wkeys@[j]);
                        assert(s1.subrange(n0 as int, s1.len() as int).contains(e));
                        let t = choose|t: int| 0 <= t < s1.subrange(n0 as int, s1.len() as int).len()
                            && #[trigger] s1.subrange(n0 as int, s1.len() as int)[t] == e;
                        assert(nsel.subrange(n0 as int, nsel.len() as int)[t] == e);
                    } else {
                        let e = ElemIndex::Wire(k);
                        assert(nsel.subrange(n0 as int, nsel.len() as int)[nsel.len() - 1 - n0] == e);
                    }
                }
                assert forall|w: WireKey| #[trigger] self.ws().contains_key(w) implies
                    self.ws()[w] == (Wire { selected: ow[w].selected
                        || (boxed(ElemIndex::Wire(w), oc, ow, lo, hi) && wkeys@.subrange(0, i + 1).contains(w)), ..ow[w] }) by {
                    if w == k {
                        assert(wkeys@.subrange(0, i + 1)[i as int] == w);
                    } else {
                        assert(wkeys@.subrange(0, i + 1).contains(w) == wkeys@.subrange(0, i as int).contains(w)) by {
                            if wkeys@.subrange(0, i + 1).contains(w) {
                                let t = choose|t: int| 0 <= t < i + 1 && #[trigger] wkeys@.subrange(0, i + 1)[t] == w;
                                assert(wkeys@.subrange(0, i as int)[t] == w);
                            }
                        }
                    }
                }
            }
            i = i + 1;
        }
        proof {
            assert(wkeys@.subrange(0, wkeys@.len() as int) == wkeys@);
            let fs = self.selection@;
            assert forall|w: WireKey| #[trigger] self.ws().contains_key(w) implies
                self.ws()[w] == (Wire { selected: ow[w].selected || boxed(ElemIndex::Wire(w), oc, ow, lo, hi), ..ow[w] }) by {
                assert(wkeys@.to_set().contains(w));
            }
            assert forall|e: ElemIndex| #[trigger] boxed(e, oc, ow, lo, hi)
                implies fs.subrange(n0 as int, fs.len() as int).contains(e) by {
                match e {
                    ElemIndex::Comp(c) => {
                        assert(fs.subrange(n0 as int, nc as int).contains(e));
                        let t = choose|t: int| 0 <= t < fs.subrange(n0 as int, nc as int).len()
                            && #[trigger] fs.subrange(n0 as int, nc as int)[t] == e;
                        assert(fs.subrange(n0 as int, fs.len() as int)[t] == e);
                    },
                    ElemIndex::Wire(w) => {
                        assert(wkeys@.to_set().contains(w));
                        let t = choose|t: int| 0 <= t < wkeys@.len() && #[trigger] wkeys@[t] == w;
                        assert(boxed(ElemIndex::Wire(wkeys@[t]), oc, ow, lo, hi));
                    },
                }
            }
        }
    }

    /// Clicking component `k`: an input flips its state and drives its new
    /// level from its output; then the pass number moves on.
    pub fn click_comp(&mut self, k: CompKey)
        requires
            old(self).wf(),
        ensures
            final(self).wf(),
            final(self).history == old(self).history,
            final(self).cs().dom() == old(self).cs().dom(),
            final(self).ws() == old(self).ws(),
            !old(self).cs().contains_key(k) ==> *final(self) == *old(self),
            old(self).cs().contains_key(k) ==> {
                &&& final(self).cs()[k].kind == (match old(self).cs()[k].kind {
                    CompKind::Input { state } => CompKind::Input { state: !state },
                    kind => kind,
                })
                &&& final(self).cs()[k].pos == old(self).cs()[k].pos
                &&& same_but_kind(final(self).cs()[k], old(self).cs()[k])
                &&& forall|c: CompKey| c != k && #[trigger] old(self).cs().contains_key(c) ==> final(self).cs()[c] == old(self).cs()[c]
                &&& final(self).update_generation == next_pass(old(self).update_generation)
                &&& pass_step(old(self).nodes.slots(), final(self).nodes.slots(), old(self).update_generation)
                &&& comp_nodes_stored(old(self).nodes.slots(), old(self).cs()[k]) ==> ({
                    let n0 = old(self).nodes;
                    let p = n0.slots()[old(self).cs()[k].nodes@[0]].pos;
                    n0.at(p).len() > 0 && n0.slots()[n0.at(p)[0]].generation != old(self).update_generation
                        ==> final(self).nodes.slots()[n0.at(p)[0]].logic_lvl
                            == gate_output(final(self).cs()[k].kind, final(self).cs()[k].levels(n0))
                })
            },
    {
        if self.comps.get(k).is_none() {
            return;
        }
        self.comps.get_mut(k).on_click();
        proof {
            assert(self.cs().dom() =~= old(self).cs().dom());
            assert forall|cc: CompKey| #[trigger] self.cs().contains_key(cc) implies self.cs()[cc].pos.in_range() && cc.gen > 0 by {
                assert(old(self).cs().contains_key(cc));
            }
        }
        let g = self.update_generation;
        self.comps.get(k).unwrap().update(&mut self.nodes, &self.wires, &self.comps, g);
        crate::nodes::bump(&mut self.update_generation);
    }

    /// The first component (by slot) at `at`.
    pub fn find_comp_at(&self, at: IVec2) -> (r: Option<CompKey>)
        requires
            self.wf(),
        ensures
            r matches Some(k) ==> self.cs().contains_key(k) && self.cs()[k].pos == at
                && forall|k2: CompKey| #[trigger] self.cs().contains_key(k2) && self.cs()[k2].pos == at ==> k.slot <= k2.slot,
            r is None ==> forall|k2: CompKey| #[trigger] self.cs().contains_key(k2) ==> self.cs()[k2].pos != at,
    {
        let keys = self.comps.keys();
        let ghost ks = keys@;
        let mut i: usize = 0;
        while i < keys.len()
            invariant
                ks == keys@,
                crate::arena::comp_keys_listed(ks, self.cs()),
                0 <= i <= ks.len(),
                forall|j: int| 0 <= j < i ==> self.cs()[#[trigger] ks[j]].pos != at,
            decreases ks.len() - i,
        {
            proof {
                assert(ks.to_set().contains(ks[i as int]));
            }
            let c = self.comps.get(keys[i]).unwrap();
            if c.pos == at {
                proof {
                    assert forall|k2: CompKey| #[trigger] self.cs().contains_key(k2) && self.cs()[k2].pos == at
                        implies ks[i as int].slot <= k2.slot by {
                        assert(ks.to_set().contains(k2));
                        let j = choose|j: int| 0 <= j < ks.len() && ks[j] == k2;
                        if j < i {
                        } else if j > i {
                        }
                    }
                }
                return Some(keys[i]);
            }
            i = i + 1;
        }
        proof {
            assert forall|k2: CompKey| #[trigger] self.cs().contains_key(k2) implies self.cs()[k2].pos != at by {
                assert(ks.to_set().contains(k2));
                let j = choose|j: int| 0 <= j < ks.len() && ks[j] == k2;
            }
        }
        None
    }

    /// The first wire (by slot) from `from` to `to`, or with `either` also
    /// one from `to` to `from`; with `last`, the last such wire instead.
    pub fn find_wire(&self, from: IVec2, to: IVec2, either: bool, last: bool) -> (r: Option<WireKey>)
        requires
            self.wf(),
        ensures
            r matches Some(k) ==> self.ws().contains_key(k) && wire_matches(self.ws()[k], from, to, either)
                && forall|k2: WireKey| #[trigger] self.ws().contains_key(k2) && wire_matches(self.ws()[k2], from, to, either)
                    ==> (if last { k2.slot <= k.slot } else { k.slot <= k2.slot }),
            r is None ==> forall|k2: WireKey| #[trigger] self.ws().contains_key(k2) ==> !wire_matches(self.ws()[k2], from, to, either),
    {
        let keys = self.wires.wires.keys();
        let ghost ks = keys@;
        let mut found: Option<WireKey> = None;
        let mut i: usize = 0;
        while i < keys.len()
            invariant
                ks == keys@,
                crate::arena::wire_keys_listed(ks, self.ws()),
                0 <= i <= ks.len(),
                found is None ==> forall|j: int| 0 <= j < i ==> !wire_matches(self.ws()[#[trigger] ks[j]], from, to, either),
                found matches Some(k) ==> exists|j: int| 0 <= j < i && ks[j] == k && wire_matches(self.ws()[ks[j]], from, to, either)
                    && forall|j2: int| 0 <= j2 < i && wire_matches(self.ws()[#[trigger] ks[j2]], from, to, either)
                        ==> (if last { j2 <= j } else { j <= j2 }),
                !last ==> found is None,
            decreases ks.len() - i,
        {
            proof {
                assert(ks.to_set().contains(ks[i as int]));
            }
            let w = *self.wires.wires.get(keys[i]).unwrap();
            let m = (w.start == from && w.end == to) || (either && w.end == from && w.start == to);
            if m {
                if !last {
                    proof {
                        assert(wire_matches(self.ws()[ks[i as int]], from, to, either));
                        assert forall|k2: WireKey| #[trigger] self.ws().contains_key(k2) && wire_matches(self.ws()[k2], from, to, either)
                            implies ks[i as int].slot <= k2.slot by {
                            assert(ks.to_set().contains(k2));
                            let j = choose|j: int| 0 <= j < ks.len() && ks[j] == k2;
                            if j < i {
                            } else if j > i {
                            }
                        }
                    }
                    return Some(keys[i]);
                }
                found = Some(keys[i]);
            }
            i = i + 1;
        }
        proof {
            match found {
                Some(k) => {
                    let j = choose|j: int| 0 <= j < ks.len() && ks[j] == k && wire_matches(self.ws()[ks[j]], from, to, either)
                        && forall|j2: int| 0 <= j2 < ks.len() && wire_matches(self.ws()[#[trigger] ks[j2]], from, to, either)
                            ==> (if last { j2 <= j } else { j <= j2 });
                    assert(ks.to_set().contains(k));
                    assert forall|k2: WireKey| #[trigger] self.ws().contains_key(k2) && wire_matches(self.ws()[k2], from, to, either)
                        implies (if last { k2.slot <= k.slot } else { k.slot <= k2.slot }) by {
                        assert(ks.to_set().contains(k2));
                        let j2 = choose|j2: int| 0 <= j2 < ks.len() && ks[j2] == k2;
                        if j2 < j {
                        } else if j2 > j {
                        }
                    }
                },
                None => {
                    assert forall|k2: WireKey| #[trigger] self.ws().contains_key(k2) implies !wire_matches(self.ws()[k2], from, to, either) by {
                        assert(ks.to_set().contains(k2));
                        let j = choose|j: int| 0 <= j < ks.len() && ks[j] == k2;
                    }
                },
            }
        }
        found
    }
}

/// Component `k` is the one at `at` with the least slot.
/// What carrying out `action` does to the components and wires (`cs0`,
/// `ws0`, with nodes `n0`, before; `cs1`, `ws1` after), given whether it
/// applied.
pub open spec fn action_effect(
    cs0: Map<CompKey, Component>,
    ws0: Map<WireKey, Wire>,
    n0: NodeHandler,
    cs1: Map<CompKey, Component>,
    ws1: Map<WireKey, Wire>,
    action: Action,
    applied: bool,
) -> bool {
    match action {
        Action::AddComp { to, kind } => {
            &&& applied == (fits(kind, to) && placeable(kind, to, n0))
            &&& ws1 == ws0
            &&& !applied ==> cs1 == cs0
            &&& applied ==> exists|k: CompKey| {
                &&& !cs0.contains_key(k)
                &&& #[trigger] cs1.dom() == cs0.dom().insert(k)
                &&& cs1[k].kind == kind
                &&& cs1[k].pos == to
                &&& forall|k2: CompKey| cs0.contains_key(k2) ==> cs1[k2] == cs0[k2]
            }
        },
        Action::DeleteComp { at, kind: _ } => {
            &&& ws1 == ws0
            &&& applied == exists|k: CompKey| #[trigger] cs0.contains_key(k) && cs0[k].pos == at
            &&& applied ==> exists|k: CompKey| #[trigger] first_comp_at(cs0, at, k)
                && cs1 == cs0.remove(k)
        },
        Action::AddWire { from, to } => applied && cs1 == cs0 && exists|w: WireKey| {
            &&& !ws0.contains_key(w)
            &&& #[trigger] ws1.dom() == ws0.dom().insert(w)
            &&& ws1[w].start == from
            &&& ws1[w].end == to
            &&& forall|k: WireKey| ws0.contains_key(k) ==> ws1[k] == ws0[k]
        },
        Action::DeleteWire { from, to } => {
            &&& cs1 == cs0
            &&& applied == exists|k: WireKey| #[trigger] ws0.contains_key(k) && wire_matches(ws0[k], from, to, false)
            &&& applied ==> exists|k: WireKey| #[trigger] extreme_wire(ws0, from, to, false, true, k)
                && ws1 == ws0.remove(k)
        },
        Action::OverwriteWire { oldstart, oldend, newstart, newend } => {
            &&& cs1 == cs0
            &&& applied == exists|k: WireKey| #[trigger] extreme_wire(ws0, oldstart, oldend, false, false, k)
                && ws0[k].start != ws0[k].end
                && nodes_owned_at(n0, ws0[k].start, ElemIndex::Wire(k))
                && nodes_owned_at(n0, ws0[k].end, ElemIndex::Wire(k))
            &&& !applied ==> ws1 == ws0
            &&& applied ==> exists|k: WireKey| #[trigger] extreme_wire(ws0, oldstart, oldend, false, false, k)
                && ws1.dom() == ws0.dom()
                && ws1[k].start == newstart && ws1[k].end == newend && ws1[k].selected == ws0[k].selected
                && forall|k2: WireKey| k2 != k && #[trigger] ws0.contains_key(k2) ==> ws1[k2] == ws0[k2]
        },
        Action::MoveComp { from, to } => {
            &&& ws1 == ws0
            &&& applied == exists|k: CompKey| #[trigger] first_comp_at(cs0, from, k)
                && offset(from, to).in_range()
                && comp_movable(cs0[k], n0, k, offset(from, to))
            &&& !applied ==> cs1 == cs0
            &&& applied ==> exists|k: CompKey| #[trigger] first_comp_at(cs0, from, k)
                && cs1.dom() == cs0.dom() && cs1[k].pos == to && same_but_pos(cs1[k], cs0[k])
                && forall|k2: CompKey| k2 != k && #[trigger] cs0.contains_key(k2) ==> cs1[k2] == cs0[k2]
        },
        Action::MoveWire { from, to, by } => {
            &&& cs1 == cs0
            &&& applied == exists|k: WireKey| #[trigger] extreme_wire(ws0, from, to, true, false, k)
                && wire_movable(ws0[k], n0, k, by)
            &&& !applied ==> ws1 == ws0
            &&& applied ==> exists|k: WireKey| #[trigger] extreme_wire(ws0, from, to, true, false, k)
                && ws1.dom() == ws0.dom()
                && ws1[k] == (Wire { start: mk(vadd(ws0[k].start, by)), end: mk(vadd(ws0[k].end, by)), ..ws0[k] })
                && forall|k2: WireKey| k2 != k && #[trigger] ws0.contains_key(k2) ==> ws1[k2] == ws0[k2]
        },
    }
}

/// The components, wires and nodes of a canvas at one moment.
pub struct Snap {
    pub cs: Map<CompKey, Component>,
    pub ws: Map<WireKey, Wire>,
    pub nodes: NodeHandler,
}

/// The components, wires and nodes of `c`.
pub open spec fn snap_of(c: Canvas) -> Snap {
    Snap { cs: c.cs(), ws: c.ws(), nodes: c.nodes }
}

/// One step from `s0` to `s1`: the action `a` carried out (`applied`
/// telling whether it applied), or, with no action, nothing changed.
pub open spec fn snap_step(s0: Snap, s1: Snap, a: Option<Action>, applied: bool) -> bool {
    match a {
        Some(x) => step_effect(s0.cs, s0.ws, s0.nodes, s1.cs, s1.ws, x, applied),
        None => !applied && s1 == s0,
    }
}

/// `snaps` runs through the actions `acts` in order: step `j` carries out
/// `acts[j]` (`apps[j]` telling whether it applied).
pub open spec fn effect_chain(snaps: Seq<Snap>, acts: Seq<Action>, apps: Seq<bool>) -> bool {
    &&& snaps.len() == acts.len() + 1
    &&& apps.len() == acts.len()
    &&& forall|j: int| 0 <= j < acts.len() ==> action_effect(snaps[j].cs, snaps[j].ws, snaps[j].nodes,
        snaps[j + 1].cs, snaps[j + 1].ws, #[trigger] acts[j], apps[j])
}

/// The reverses of the actions of `acts`, last first.
pub open spec fn reversed_step(acts: Seq<Action>) -> Seq<Action> {
    Seq::new(acts.len(), |j: int| spec_reverse(acts[acts.len() - 1 - j]))
}

/// The actions of `acts` that applied, in order.
pub open spec fn recorded(acts: Seq<Option<Action>>, apps: Seq<bool>) -> Seq<Action>
    decreases acts.len(),
{
    if acts.len() == 0 || apps.len() < acts.len() {
        Seq::<Action>::empty()
    } else {
        recorded(acts.drop_last(), apps.subrange(0, acts.len() - 1))
            + (match acts.last() {
                Some(x) => applied_seq(x, apps[acts.len() - 1]),
                None => Seq::<Action>::empty(),
            })
    }
}

/// The action moving element `e` of `s` by `by`, if it is there (and, for
/// a component, its new position is admissible).
pub open spec fn move_of(s: Snap, e: ElemIndex, by: IVec2) -> Option<Action> {
    match e {
        ElemIndex::Comp(k) => if s.cs.contains_key(k) && pair_in_range(vadd(s.cs[k].pos, by)) {
            Some(Action::MoveComp { from: s.cs[k].pos, to: mk(vadd(s.cs[k].pos, by)) })
        } else {
            None
        },
        ElemIndex::Wire(k) => if s.ws.contains_key(k) {
            Some(Action::MoveWire { from: s.ws[k].start, to: s.ws[k].end, by })
        } else {
            None
        },
    }
}

/// `at + p`, when that is an admissible canvas point.
pub open spec fn shift(at: IVec2, p: IVec2) -> Option<IVec2> {
    if pair_in_range(vadd(at, p)) { Some(mk(vadd(at, p))) } else { None }
}

/// What `checked_add_wire(from, to)` does to the components and wires: the
/// components stay, and a wire that meets no existing wire is added as it
/// is, the others staying.
pub open spec fn wire_add_effect(
    cs0: Map<CompKey, Component>,
    ws0: Map<WireKey, Wire>,
    cs1: Map<CompKey, Component>,
    ws1: Map<WireKey, Wire>,
    from: IVec2,
    to: IVec2,
) -> bool {
    &&& cs1 == cs0
    &&& (forall|k: WireKey| #[trigger] ws0.contains_key(k) ==> !meets(ws0[k], from, to)) ==> exists|w: WireKey| {
        &&& !ws0.contains_key(w)
        &&& #[trigger] ws1.dom() == ws0.dom().insert(w)
        &&& ws1[w].start == from
        &&& ws1[w].end == to
        &&& forall|k: WireKey| ws0.contains_key(k) ==> ws1[k] == ws0[k]
    }
}

/// Pasting clipboard element `e` with the group's corner at `at`, from
/// `s0` to `s1`: a component is placed at its shifted point (`applied`
/// telling whether it was), a wire is added between its shifted ends (see
/// `checked_add_wire`); an element leaving the admissible range is skipped.
pub open spec fn paste_step(s0: Snap, s1: Snap, e: ClipboardElement, at: IVec2, applied: bool) -> bool {
    match e {
        ClipboardElement::Component { kind, pos } => snap_step(s0, s1, match shift(at, pos) {
            Some(p) => Some(Action::AddComp { to: p, kind }),
            None => None,
        }, applied),
        ClipboardElement::Wire { start, end } => !applied && match (shift(at, start), shift(at, end)) {
            (Some(a), Some(b)) => wire_add_effect(s0.cs, s0.ws, s1.cs, s1.ws, a, b),
            _ => s1 == s0,
        },
    }
}

/// The action deleting element `e` of `s`, if it is there.
pub open spec fn deletion_of(s: Snap, e: ElemIndex) -> Option<Action> {
    match e {
        ElemIndex::Comp(k) => if s.cs.contains_key(k) {
            Some(Action::DeleteComp { at: s.cs[k].pos, kind: s.cs[k].kind })
        } else {
            None
        },
        ElemIndex::Wire(k) => if s.ws.contains_key(k) {
            Some(Action::DeleteWire { from: s.ws[k].start, to: s.ws[k].end })
        } else {
            None
        },
    }
}

/// What placing a `kind` component at `to` did, or left alone.
pub proof fn lemma_added_comp(
    cs0: Map<CompKey, Component>,
    ws0: Map<WireKey, Wire>,
    n0: NodeHandler,
    cs1: Map<CompKey, Component>,
    ws1: Map<WireKey, Wire>,
    to: IVec2,
    kind: CompKind,
    applied: bool,
)
    requires
        action_effect(cs0, ws0, n0, cs1, ws1, Action::AddComp { to, kind }, applied),
    ensures
        ws1 == ws0,
        applied ==> has_comp(cs1, kind, to),
        forall|k: CompKey| #[trigger] cs0.contains_key(k) ==> cs1.contains_key(k) && cs1[k] == cs0[k],
        forall|k: CompKey| #[trigger] cs1.contains_key(k) && !cs0.contains_key(k) ==> cs1[k].kind == kind && cs1[k].pos == to,
{
    if applied {
        let k = choose|k: CompKey| {
            &&& !cs0.contains_key(k)
            &&& #[trigger] cs1.dom() == cs0.dom().insert(k)
            &&& cs1[k].kind == kind
            &&& cs1[k].pos == to
            &&& forall|k2: CompKey| cs0.contains_key(k2) ==> cs1[k2] == cs0[k2]
        };
        assert(cs1.contains_key(k));
    }
}

/// Component `c`, stored under key `k`, is freshly placed: unselected, with
/// no move asked for, and one node per template of its kind, each on the
/// template's point shifted to the component's position and owned by it.
pub open spec fn comp_placed(nodes: NodeHandler, c: Component, k: CompKey) -> bool {
    &&& !c.selected
    &&& c.move_request is None
    &&& c.nodes@.len() == spec_templates(c.kind).len()
    &&& forall|i: int| 0 <= i < c.nodes@.len() ==> {
        &&& nodes.slots().contains_key(#[trigger] c.nodes@[i])
        &&& nodes.slots()[c.nodes@[i]].pos == mk(vadd(c.pos, spec_templates(c.kind)[i].pos))
        &&& nodes.slots()[c.nodes@[i]].owner == Some(ElemIndex::Comp(k))
    }
}

/// Some component of `cs` is of kind `kind` and stands at `pos`.
pub open spec fn has_comp(cs: Map<CompKey, Component>, kind: CompKind, pos: IVec2) -> bool {
    exists|k: CompKey| #[trigger] cs.contains_key(k) && cs[k].kind == kind && cs[k].pos == pos
}

/// Selection entry `e` stays when the wire from `from` to `to` is deleted
/// by its ends: it is not a live wire of `ws` with exactly those ends.
pub open spec fn stays_selected(ws: Map<WireKey, Wire>, e: ElemIndex, from: IVec2, to: IVec2) -> bool {
    match e {
        ElemIndex::Wire(w) => !(ws.contains_key(w) && ws[w].start == from && ws[w].end == to),
        ElemIndex::Comp(_) => true,
    }
}

/// Some wire of `ws` runs from `from` to `to`.
pub open spec fn has_wire(ws: Map<WireKey, Wire>, from: IVec2, to: IVec2) -> bool {
    exists|k: WireKey| #[trigger] ws.contains_key(k) && ws[k].start == from && ws[k].end == to
}

/// `c` is one of the components of the starting circuit: a NAND gate at
/// (0, 5), an OR gate at (0, -5), an AND gate at (0, 0), or an input (off)
/// at (-7, 0) or (-7, 2).
pub open spec fn starting_comp(c: Component) -> bool {
    ||| c.kind == CompKind::NandGate && c.pos == IVec2 { x: 0i32, y: 5i32 }
    ||| c.kind == CompKind::OrGate && c.pos == IVec2 { x: 0i32, y: -5i32 }
    ||| c.kind == CompKind::AndGate && c.pos == IVec2 { x: 0i32, y: 0i32 }
    ||| c.kind == (CompKind::Input { state: false }) && c.pos == IVec2 { x: -7i32, y: 0i32 }
    ||| c.kind == (CompKind::Input { state: false }) && c.pos == IVec2 { x: -7i32, y: 2i32 }
}

/// The displacement from `from` to `to`, as a grid vector.
pub open spec fn offset(from: IVec2, to: IVec2) -> IVec2 {
    IVec2 { x: (to.x - from.x) as i32, y: (to.y - from.y) as i32 }
}

/// `c1` and `c0` agree in everything but (perhaps) their position.
pub open spec fn same_but_pos(c1: Component, c0: Component) -> bool {
    &&& c1.kind == c0.kind
    &&& c1.nodes@ == c0.nodes@
    &&& c1.id == c0.id
    &&& c1.selected == c0.selected
}

/// `c1` and `c0` agree in everything but (perhaps) their kind.
pub open spec fn same_but_kind(c1: Component, c0: Component) -> bool {
    &&& c1.pos == c0.pos
    &&& c1.nodes@ == c0.nodes@
    &&& c1.id == c0.id
    &&& c1.selected == c0.selected
}

/// `e` is a copied component whose placement with the copied group's corner
/// at `at` is the component `c`.
pub open spec fn component_pasted(e: ClipboardElement, at: IVec2, c: Component) -> bool {
    e matches ClipboardElement::Component { kind, pos }
        && c.kind == kind && c.pos.x == at.x + pos.x && c.pos.y == at.y + pos.y
}

/// The component `c` is the placement of one of the copied components, with
/// the group's corner at `at`.
pub open spec fn pasted_from(clip: Seq<ClipboardElement>, at: IVec2, c: Component) -> bool {
    exists|j: int| 0 <= j < clip.len() && #[trigger] component_pasted(clip[j], at, c)
}

/// What carrying out `action` does, whether or not its points are
/// admissible: an action with a point out of range does not apply and
/// changes nothing.
pub open spec fn step_effect(
    cs0: Map<CompKey, Component>,
    ws0: Map<WireKey, Wire>,
    n0: NodeHandler,
    cs1: Map<CompKey, Component>,
    ws1: Map<WireKey, Wire>,
    action: Action,
    applied: bool,
) -> bool {
    if action_in_range(action) {
        action_effect(cs0, ws0, n0, cs1, ws1, action, applied)
    } else {
        !applied && cs1 == cs0 && ws1 == ws0
    }
}

/// `a` alone if it applied, else nothing.
pub open spec fn applied_seq(a: Action, applied: bool) -> Seq<Action> {
    if applied { seq![a] } else { Seq::<Action>::empty() }
}

/// The steps once recording has begun on `h` (see `History::start`).
pub open spec fn started(h: History) -> Seq<Seq<Action>> {
    if h.cursor < h.log().len() {
        h.log().subrange(0, h.cursor + 1)
    } else {
        h.log().push(Seq::<Action>::empty())
    }
}

/// Undoing the addition of an element that has no twin: if no wire ran
/// from `from` to `to`, then after `AddWire { from, to }` the reverse action
/// applies and leaves exactly the components and wires there were before;
/// likewise after `AddComp` at a point where no component stood.
pub proof fn lemma_reverse_removes_added(
    cs0: Map<CompKey, Component>,
    ws0: Map<WireKey, Wire>,
    n0: NodeHandler,
    cs1: Map<CompKey, Component>,
    ws1: Map<WireKey, Wire>,
    n1: NodeHandler,
    cs2: Map<CompKey, Component>,
    ws2: Map<WireKey, Wire>,
    a: Action,
    applied: bool,
)
    requires
        action_effect(cs0, ws0, n0, cs1, ws1, a, true),
        action_effect(cs1, ws1, n1, cs2, ws2, spec_reverse(a), applied),
        a matches Action::AddWire { from, to } ==> forall|k: WireKey|
            #[trigger] ws0.contains_key(k) ==> !wire_matches(ws0[k], from, to, false),
        a matches Action::AddComp { to, kind } ==> forall|k: CompKey|
            #[trigger] cs0.contains_key(k) ==> cs0[k].pos != to,
    ensures
        a is AddWire || a is AddComp ==> applied && cs2 == cs0 && ws2 == ws0,
{
    match a {
        Action::AddWire { from, to } => {
            let w = choose|w: WireKey| {
                &&& !ws0.contains_key(w)
                &&& #[trigger] ws1.dom() == ws0.dom().insert(w)
                &&& ws1[w].start == from
                &&& ws1[w].end == to
                &&& forall|k: WireKey| ws0.contains_key(k) ==> ws1[k] == ws0[k]
            };
            assert(ws1.contains_key(w) && wire_matches(ws1[w], from, to, false));
            let k = choose|k: WireKey| #[trigger] extreme_wire(ws1, from, to, false, true, k) && ws2 == ws1.remove(k);
            if k != w {
                assert(ws0.contains_key(k));
                assert(ws1[k] == ws0[k]);
            }
            assert(ws2 =~= ws0);
        },
        Action::AddComp { to, kind } => {
            let c = choose|k: CompKey| {
                &&& !cs0.contains_key(k)
                &&& #[trigger] cs1.dom() == cs0.dom().insert(k)
                &&& cs1[k].kind == kind
                &&& cs1[k].pos == to
                &&& forall|k2: CompKey| cs0.contains_key(k2) ==> cs1[k2] == cs0[k2]
            };
            assert(cs1.contains_key(c) && cs1[c].pos == to);
            let k = choose|k: CompKey| #[trigger] first_comp_at(cs1, to, k) && cs2 == cs1.remove(k);
            if k != c {
                assert(cs0.contains_key(k));
                assert(cs1[k] == cs0[k]);
            }
            assert(cs2 =~= cs0);
        },
        _ => {},
    }
}

/// Moving a component and moving it back: if a component moved from `from`
/// to `to`, where no component stood, and the move back then applies, every
/// component is where it was and otherwise unchanged, and the wires are as
/// they were.
pub proof fn lemma_move_back(
    cs0: Map<CompKey, Component>,
    ws0: Map<WireKey, Wire>,
    n0: NodeHandler,
    cs1: Map<CompKey, Component>,
    ws1: Map<WireKey, Wire>,
    n1: NodeHandler,
    cs2: Map<CompKey, Component>,
    ws2: Map<WireKey, Wire>,
    from: IVec2,
    to: IVec2,
)
    requires
        action_effect(cs0, ws0, n0, cs1, ws1, Action::MoveComp { from, to }, true),
        action_effect(cs1, ws1, n1, cs2, ws2, Action::MoveComp { from: to, to: from }, true),
        forall|k: CompKey| #[trigger] cs0.contains_key(k) ==> cs0[k].pos != to,
    ensures
        ws2 == ws0,
        cs2.dom() == cs0.dom(),
        forall|k: CompKey| #[trigger] cs0.contains_key(k) ==> cs2[k].pos == cs0[k].pos && same_but_pos(cs2[k], cs0[k]),
{
    let k1 = choose|k: CompKey| #[trigger] first_comp_at(cs0, from, k)
        && cs1.dom() == cs0.dom() && cs1[k].pos == to && same_but_pos(cs1[k], cs0[k])
        && forall|k2: CompKey| k2 != k && #[trigger] cs0.contains_key(k2) ==> cs1[k2] == cs0[k2];
    let k2 = choose|k: CompKey| #[trigger] first_comp_at(cs1, to, k)
        && cs2.dom() == cs1.dom() && cs2[k].pos == from && same_but_pos(cs2[k], cs1[k])
        && forall|k3: CompKey| k3 != k && #[trigger] cs1.contains_key(k3) ==> cs2[k3] == cs1[k3];
    if k2 != k1 {
        assert(cs0.contains_key(k2));
        assert(cs1[k2] == cs0[k2]);
    }
    assert forall|k: CompKey| #[trigger] cs0.contains_key(k) implies cs2[k].pos == cs0[k].pos && same_but_pos(cs2[k], cs0[k]) by {
        if k != k1 {
            assert(cs1.contains_key(k));
            assert(cs2[k] == cs1[k]);
            assert(cs1[k] == cs0[k]);
        }
    }
}

/// Undoing a wire's removal: after `DeleteWire { from, to }` applied, the
/// reverse action applies too, and the wires are those there were with the
/// removed one replaced by a new wire from `from` to `to`.
pub proof fn lemma_readd_deleted_wire(
    cs0: Map<CompKey, Component>,
    ws0: Map<WireKey, Wire>,
    n0: NodeHandler,
    cs1: Map<CompKey, Component>,
    ws1: Map<WireKey, Wire>,
    n1: NodeHandler,
    cs2: Map<CompKey, Component>,
    ws2: Map<WireKey, Wire>,
    from: IVec2,
    to: IVec2,
    applied: bool,
)
    requires
        action_effect(cs0, ws0, n0, cs1, ws1, Action::DeleteWire { from, to }, true),
        action_effect(cs1, ws1, n1, cs2, ws2, Action::AddWire { from, to }, applied),
    ensures
        applied,
        cs2 == cs0,
        exists|kd: WireKey, w: WireKey| #![trigger ws0[kd], ws2[w]] {
            &&& ws0.contains_key(kd)
            &&& wire_matches(ws0[kd], from, to, false)
            &&& ws2.dom() == ws0.dom().remove(kd).insert(w)
            &&& ws2[w].start == from && ws2[w].end == to
            &&& forall|k: WireKey| k != kd && #[trigger] ws0.contains_key(k) ==> ws2[k] == ws0[k]
        },
{
    let kd = choose|k: WireKey| #[trigger] extreme_wire(ws0, from, to, false, true, k) && ws1 == ws0.remove(k);
    let w = choose|w: WireKey| {
        &&& !ws1.contains_key(w)
        &&& #[trigger] ws2.dom() == ws1.dom().insert(w)
        &&& ws2[w].start == from
        &&& ws2[w].end == to
        &&& forall|k: WireKey| ws1.contains_key(k) ==> ws2[k] == ws1[k]
    };
    assert(ws2.dom() =~= ws0.dom().remove(kd).insert(w));
    assert forall|k: WireKey| k != kd && #[trigger] ws0.contains_key(k) implies ws2[k] == ws0[k] by {
        assert(ws1.contains_key(k));
    }
}

/// Moving a wire and moving it back: if the wire running between `from`
/// and `to` was moved by `by`, no wire ran between the moved ends before,
/// and the move back applies, then every wire is as it was.
pub proof fn lemma_move_wire_back(
    cs0: Map<CompKey, Component>,
    ws0: Map<WireKey, Wire>,
    n0: NodeHandler,
    cs1: Map<CompKey, Component>,
    ws1: Map<WireKey, Wire>,
    n1: NodeHandler,
    cs2: Map<CompKey, Component>,
    ws2: Map<WireKey, Wire>,
    a: Action,
)
    requires
        a is MoveWire,
        action_in_range(a),
        action_effect(cs0, ws0, n0, cs1, ws1, a, true),
        action_effect(cs1, ws1, n1, cs2, ws2, spec_reverse(a), true),
        forall|k: WireKey| #[trigger] ws0.contains_key(k)
            ==> !wire_matches(ws0[k], spec_reverse(a)->MoveWire_from, spec_reverse(a)->MoveWire_to, true),
    ensures
        ws2 == ws0,
        cs2 == cs0,
{
    let from = a->MoveWire_from;
    let to = a->MoveWire_to;
    let by = a->MoveWire_by;
    let r = spec_reverse(a);
    let k1 = choose|k: WireKey| #[trigger] extreme_wire(ws0, from, to, true, false, k)
        && ws1.dom() == ws0.dom()
        && ws1[k] == (Wire { start: mk(vadd(ws0[k].start, by)), end: mk(vadd(ws0[k].end, by)), ..ws0[k] })
        && forall|k2: WireKey| k2 != k && #[trigger] ws0.contains_key(k2) ==> ws1[k2] == ws0[k2];
    let k2 = choose|k: WireKey| #[trigger] extreme_wire(ws1, r->MoveWire_from, r->MoveWire_to, true, false, k)
        && ws2.dom() == ws1.dom()
        && ws2[k] == (Wire { start: mk(vadd(ws1[k].start, r->MoveWire_by)), end: mk(vadd(ws1[k].end, r->MoveWire_by)), ..ws1[k] })
        && forall|k3: WireKey| k3 != k && #[trigger] ws1.contains_key(k3) ==> ws2[k3] == ws1[k3];
    if k2 != k1 {
        assert(ws0.contains_key(k2));
        assert(ws1[k2] == ws0[k2]);
    }
    assert(ws2[k1] == ws0[k1]);
    assert forall|k: WireKey| #[trigger] ws0.contains_key(k) implies ws2[k] == ws0[k] by {
        if k != k1 {
            assert(ws1.contains_key(k));
        }
    }
    assert(ws2 =~= ws0);
}

/// The least corner of the box spanned by `a` and `b`.
pub open spec fn box_lo(a: IVec2, b: IVec2) -> IVec2 {
    IVec2 { x: if a.x < b.x { a.x } else { b.x }, y: if a.y < b.y { a.y } else { b.y } }
}

/// The greatest corner of the box spanned by `a` and `b`.
pub open spec fn box_hi(a: IVec2, b: IVec2) -> IVec2 {
    IVec2 { x: if a.x > b.x { a.x } else { b.x }, y: if a.y > b.y { a.y } else { b.y } }
}

/// `e` exists and lies in the box from `lo` to `hi`: a component by its
/// position, a wire by both of its ends.
pub open spec fn boxed(e: ElemIndex, cs: Map<CompKey, Component>, ws: Map<WireKey, Wire>, lo: IVec2, hi: IVec2) -> bool {
    match e {
        ElemIndex::Comp(k) => cs.contains_key(k) && in_box(cs[k].pos, lo, hi),
        ElemIndex::Wire(k) => ws.contains_key(k) && in_box(ws[k].start, lo, hi) && in_box(ws[k].end, lo, hi),
    }
}

pub open spec fn first_comp_at(cs: Map<CompKey, Component>, at: IVec2, k: CompKey) -> bool {
    &&& cs.contains_key(k)
    &&& cs[k].pos == at
    &&& forall|k2: CompKey| #[trigger] cs.contains_key(k2) && cs[k2].pos == at ==> k.slot <= k2.slot
}

/// Wire `k` is the matching one with the least slot (or, with `last`,
/// the greatest).
pub open spec fn extreme_wire(ws: Map<WireKey, Wire>, from: IVec2, to: IVec2, either: bool, last: bool, k: WireKey) -> bool {
    &&& ws.contains_key(k)
    &&& wire_matches(ws[k], from, to, either)
    &&& forall|k2: WireKey| #[trigger] ws.contains_key(k2) && wire_matches(ws[k2], from, to, either)
        ==> (if last { k2.slot <= k.slot } else { k.slot <= k2.slot })
}

/// The box at `a` of size `sa` and the box at `b` of size `sb` overlap
/// (touching edges do not count).
pub open spec fn boxes_overlap(a: IVec2, sa: IVec2, b: IVec2, sb: IVec2) -> bool {
    a.x < b.x + sb.x && a.x + sa.x > b.x && a.y < b.y + sb.y && a.y + sa.y > b.y
}

/// The box spanned by two corners, given in any order: its least corner
/// is no greater than either corner on each axis and is one of them, its
/// greatest corner likewise; and a point lies in it exactly when it lies
/// between the two corners on each axis.
pub proof fn lemma_box_corners(a: IVec2, b: IVec2, p: IVec2)
    ensures
        box_lo(a, b).x <= a.x && box_lo(a, b).x <= b.x && (box_lo(a, b).x == a.x || box_lo(a, b).x == b.x),
        box_lo(a, b).y <= a.y && box_lo(a, b).y <= b.y && (box_lo(a, b).y == a.y || box_lo(a, b).y == b.y),
        box_hi(a, b).x >= a.x && box_hi(a, b).x >= b.x && (box_hi(a, b).x == a.x || box_hi(a, b).x == b.x),
        box_hi(a, b).y >= a.y && box_hi(a, b).y >= b.y && (box_hi(a, b).y == a.y || box_hi(a, b).y == b.y),
        in_box(p, box_lo(a, b), box_hi(a, b)) <==> (
            (a.x <= p.x <= b.x || b.x <= p.x <= a.x) && (a.y <= p.y <= b.y || b.y <= p.y <= a.y)),
{
}

/// The new wire from `from` to `to` forms a T-junction with wire `k0` at
/// `p`, one of its ends: `p` lies strictly inside that wire and the other
/// end does not, the two are not parallel and the new wire does not cover
/// `k0`, `k0`'s ends differ and hold its nodes, and no other wire meets
/// the new one.
#[verifier::opaque]
pub open spec fn junction(ws: Map<WireKey, Wire>, n: NodeHandler, from: IVec2, to: IVec2, k0: WireKey, p: IVec2) -> bool {
    let o = ws[k0];
    let q = if p == from { to } else { from };
    &&& p == from || p == to
    &&& from.in_range() && to.in_range()
    &&& ws.contains_key(k0)
    &&& o.start != o.end
    &&& spec_touches(o.start, o.end, p)
    &&& !spec_touches(o.start, o.end, q)
    &&& !(spec_touches(from, to, o.start) && spec_touches(from, to, o.end))
    &&& skew(o.start, o.end, from, to)
    &&& nodes_owned_at(n, o.start, ElemIndex::Wire(k0))
    &&& nodes_owned_at(n, o.end, ElemIndex::Wire(k0))
    &&& forall|k: WireKey| #[trigger] ws.contains_key(k) && k != k0 ==> !meets(ws[k], from, to)
}

/// What a T-junction with wire `k0` at `p` says of wire `k`.
#[verifier::spinoff_prover]
pub proof fn lemma_junction(ws: Map<WireKey, Wire>, n: NodeHandler, from: IVec2, to: IVec2, k0: WireKey, p: IVec2, k: WireKey)
    requires
        junction(ws, n, from, to, k0, p),
    ensures
        p == from || p == to,
        from.in_range() && to.in_range(),
        ws.contains_key(k0),
        ws[k0].start != ws[k0].end,
        spec_touches(ws[k0].start, ws[k0].end, p),
        !spec_touches(ws[k0].start, ws[k0].end, if p == from { to } else { from }),
        !(spec_touches(from, to, ws[k0].start) && spec_touches(from, to, ws[k0].end)),
        skew(ws[k0].start, ws[k0].end, from, to),
        nodes_owned_at(n, ws[k0].start, ElemIndex::Wire(k0)),
        nodes_owned_at(n, ws[k0].end, ElemIndex::Wire(k0)),
        ws.contains_key(k) && k != k0 ==> !meets(ws[k], from, to),
{
    reveal(junction);
}

/// Wire `k0` of `ws0` was cut at `p`: in `ws1` it ends at `p`, and the new
/// wire `w2` runs from `p` to its old end; every other wire is as it was.
pub open spec fn cut_at(ws0: Map<WireKey, Wire>, ws1: Map<WireKey, Wire>, k0: WireKey, p: IVec2, w2: WireKey) -> bool {
    &&& !ws0.contains_key(w2)
    &&& ws1.dom() == ws0.dom().insert(w2)
    &&& ws1[k0].start == ws0[k0].start && ws1[k0].end == p
    &&& ws1[w2].start == p && ws1[w2].end == ws0[k0].end
    &&& forall|k: WireKey| #[trigger] ws0.contains_key(k) && k != k0 ==> ws1[k] == ws0[k]
}

/// The outcome of adding the wire from `from` to `to` at a T-junction with
/// wire `k0` at `p`: `k0` is cut at `p` (its far part is `w2`) and the new
/// wire is `w3`.
pub open spec fn junction_added(ws0: Map<WireKey, Wire>, ws1: Map<WireKey, Wire>, from: IVec2, to: IVec2,
    k0: WireKey, p: IVec2, w2: WireKey, w3: WireKey) -> bool {
    &&& !ws0.contains_key(w2) && !ws0.contains_key(w3) && w2 != w3
    &&& ws1.dom() == ws0.dom().insert(w2).insert(w3)
    &&& ws1[k0].start == ws0[k0].start && ws1[k0].end == p
    &&& ws1[w2].start == p && ws1[w2].end == ws0[k0].end
    &&& ws1[w3].start == from && ws1[w3].end == to
    &&& forall|k: WireKey| #[trigger] ws0.contains_key(k) && k != k0 ==> ws1[k] == ws0[k]
}

/// Splitting wire `k0` at a T-junction: its nodes sit on its ends, so the
/// shortening applies, and the far part is added.
proof fn lemma_junction_split(cs: Map<CompKey, Component>, ws0: Map<WireKey, Wire>, n0: NodeHandler, ws_mid: Map<WireKey, Wire>,
    n_mid: NodeHandler, ws1: Map<WireKey, Wire>, from: IVec2, to: IVec2, k0: WireKey, p: IVec2, shortened: bool, added: bool)
    requires
        junction(ws0, n0, from, to, k0, p),
        forall|w: WireKey| #[trigger] ws0.contains_key(w) ==> ws0[w].start.in_range() && ws0[w].end.in_range(),
        forall|a: WireKey, b: WireKey| #[trigger] ws0.contains_key(a) && #[trigger] ws0.contains_key(b) && a.slot == b.slot ==> a == b,
        step_effect(cs, ws0, n0, cs, ws_mid,
            Action::OverwriteWire { oldstart: ws0[k0].start, oldend: ws0[k0].end, newstart: ws0[k0].start, newend: p }, shortened),
        step_effect(cs, ws_mid, n_mid, cs, ws1, Action::AddWire { from: p, to: ws0[k0].end }, added),
    ensures
        exists|w2: WireKey| #[trigger] cut_at(ws0, ws1, k0, p, w2),
{
    lemma_junction(ws0, n0, from, to, k0, p, k0);
    let o = ws0[k0];
    assert forall|k2: WireKey| #[trigger] ws0.contains_key(k2) && wire_matches(ws0[k2], o.start, o.end, false) implies k2 == k0 by {
        lemma_junction(ws0, n0, from, to, k0, p, k2);
        if k2 != k0 {
            assert(meets(ws0[k2], from, to));
        }
    }
    assert(extreme_wire(ws0, o.start, o.end, false, false, k0));
    assert(shortened);
    let k = choose|k: WireKey| #[trigger] extreme_wire(ws0, o.start, o.end, false, false, k)
        && ws_mid.dom() == ws0.dom()
        && ws_mid[k].start == o.start && ws_mid[k].end == p && ws_mid[k].selected == ws0[k].selected
        && forall|k2: WireKey| k2 != k && #[trigger] ws0.contains_key(k2) ==> ws_mid[k2] == ws0[k2];
    assert(k == k0);
    let w2 = choose|w: WireKey| {
        &&& !ws_mid.contains_key(w)
        &&& #[trigger] ws1.dom() == ws_mid.dom().insert(w)
        &&& ws1[w].start == p
        &&& ws1[w].end == o.end
        &&& forall|k: WireKey| ws_mid.contains_key(k) ==> ws1[k] == ws_mid[k]
    };
    assert(cut_at(ws0, ws1, k0, p, w2));
}

/// A split of wire `k0` carried out at a T-junction (with the state as it
/// was before the walk) cuts it at the junction.
proof fn lemma_junction_cut(cs: Map<CompKey, Component>, ws0: Map<WireKey, Wire>, n0: NodeHandler, ws1: Map<WireKey, Wire>,
    from: IVec2, to: IVec2, k0: WireKey, p: IVec2, start: IVec2, end: IVec2, at: IVec2)
    requires
        junction(ws0, n0, from, to, k0, p),
        forall|w: WireKey| #[trigger] ws0.contains_key(w) ==> ws0[w].start.in_range() && ws0[w].end.in_range(),
        forall|a: WireKey, b: WireKey| #[trigger] ws0.contains_key(a) && #[trigger] ws0.contains_key(b) && a.slot == b.slot ==> a == b,
        start == ws0[k0].start && end == ws0[k0].end && at == p,
        exists|ws_mid: Map<WireKey, Wire>, n_mid: NodeHandler, shortened: bool, added: bool|
            #![trigger step_effect(cs, ws0, n0, cs, ws_mid,
                Action::OverwriteWire { oldstart: start, oldend: end, newstart: start, newend: at }, shortened),
                step_effect(cs, ws_mid, n_mid, cs, ws1, Action::AddWire { from: at, to: end }, added)]
        {
            &&& step_effect(cs, ws0, n0, cs, ws_mid,
                Action::OverwriteWire { oldstart: start, oldend: end, newstart: start, newend: at }, shortened)
            &&& step_effect(cs, ws_mid, n_mid, cs, ws1, Action::AddWire { from: at, to: end }, added)
        },
    ensures
        exists|w2: WireKey| #[trigger] cut_at(ws0, ws1, k0, p, w2),
{
    let (ws_mid, n_mid, shortened, added) = choose|ws_mid: Map<WireKey, Wire>, n_mid: NodeHandler, shortened: bool, added: bool|
        #![trigger step_effect(cs, ws0, n0, cs, ws_mid,
            Action::OverwriteWire { oldstart: start, oldend: end, newstart: start, newend: at }, shortened),
            step_effect(cs, ws_mid, n_mid, cs, ws1, Action::AddWire { from: at, to: end }, added)]
        {
            &&& step_effect(cs, ws0, n0, cs, ws_mid,
                Action::OverwriteWire { oldstart: start, oldend: end, newstart: start, newend: at }, shortened)
            &&& step_effect(cs, ws_mid, n_mid, cs, ws1, Action::AddWire { from: at, to: end }, added)
        };
    lemma_junction_split(cs, ws0, n0, ws_mid, n_mid, ws1, from, to, k0, p, shortened, added);
}

/// Adding the new wire after the cut completes the T-junction outcome.
proof fn lemma_junction_added(ws0: Map<WireKey, Wire>, ws1: Map<WireKey, Wire>, ws2: Map<WireKey, Wire>,
    from: IVec2, to: IVec2, k0: WireKey, p: IVec2, w2: WireKey, w3: WireKey)
    requires
        ws0.contains_key(k0),
        cut_at(ws0, ws1, k0, p, w2),
        !ws1.contains_key(w3),
        ws2.dom() == ws1.dom().insert(w3),
        ws2[w3].start == from && ws2[w3].end == to,
        forall|k: WireKey| ws1.contains_key(k) ==> ws2[k] == ws1[k],
    ensures
        junction_added(ws0, ws2, from, to, k0, p, w2, w3),
{
    assert(ws1.contains_key(w2) && ws1.contains_key(k0));
    assert forall|k: WireKey| #[trigger] ws0.contains_key(k) && k != k0 implies ws2[k] == ws0[k] by {
        assert(ws1.contains_key(k));
    }
}

/// Pasting relative to a corner: an element at `p` from the group's corner
/// lands at `at + p` on each axis, when that point is admissible, and is
/// skipped otherwise.
pub proof fn lemma_shift(at: IVec2, p: IVec2)
    requires
        at.in_range(),
        p.in_range(),
    ensures
        shift(at, p) is Some <==> (crate::geometry::coord_ok(at.x + p.x) && crate::geometry::coord_ok(at.y + p.y)),
        shift(at, p) matches Some(q) ==> q.x == at.x + p.x && q.y == at.y + p.y,
{
}

/// A box selection takes a component whose position lies in the box, and a
/// wire both of whose ends do; nothing that no longer exists.
pub proof fn lemma_boxed(e: ElemIndex, cs: Map<CompKey, Component>, ws: Map<WireKey, Wire>, lo: IVec2, hi: IVec2)
    ensures
        e matches ElemIndex::Comp(k) ==> (boxed(e, cs, ws, lo, hi) <==>
            cs.contains_key(k) && lo.x <= cs[k].pos.x <= hi.x && lo.y <= cs[k].pos.y <= hi.y),
        e matches ElemIndex::Wire(k) ==> (boxed(e, cs, ws, lo, hi) <==>
            ws.contains_key(k) && lo.x <= ws[k].start.x <= hi.x && lo.y <= ws[k].start.y <= hi.y
                && lo.x <= ws[k].end.x <= hi.x && lo.y <= ws[k].end.y <= hi.y),
{
}

/// Dragging the selection: a drag from `from` to `to` moves by their
/// difference; a selected component is moved from where it stands by that
/// much (when it stays admissible), a selected wire by its two ends; and a
/// deletion removes a live element by where it is.
pub proof fn lemma_selection_actions(sn: Snap, e: ElemIndex, by: IVec2, from: IVec2, to: IVec2)
    requires
        from.in_range(),
        to.in_range(),
    ensures
        offset(from, to).x + from.x == to.x && offset(from, to).y + from.y == to.y,
        e matches ElemIndex::Comp(k) ==> {
            &&& (move_of(sn, e, by) is Some <==> sn.cs.contains_key(k) && pair_in_range(vadd(sn.cs[k].pos, by)))
            &&& move_of(sn, e, by) matches Some(Action::MoveComp { from: f, to: t }) ==>
                f == sn.cs[k].pos && t.x == f.x + by.x && t.y == f.y + by.y
            &&& (deletion_of(sn, e) is Some <==> sn.cs.contains_key(k))
            &&& deletion_of(sn, e) matches Some(Action::DeleteComp { at, kind }) ==> at == sn.cs[k].pos && kind == sn.cs[k].kind
        },
        e matches ElemIndex::Wire(k) ==> {
            &&& (move_of(sn, e, by) is Some <==> sn.ws.contains_key(k))
            &&& move_of(sn, e, by) matches Some(Action::MoveWire { from: f, to: t, by: b }) ==>
                f == sn.ws[k].start && t == sn.ws[k].end && b == by
            &&& (deletion_of(sn, e) is Some <==> sn.ws.contains_key(k))
            &&& deletion_of(sn, e) matches Some(Action::DeleteWire { from: f, to: t }) ==> f == sn.ws[k].start && t == sn.ws[k].end
        },
{
}

/// The grid cell at `(x, y)` lies in the area at `a` of size `sa`.
pub open spec fn in_area(x: int, y: int, a: IVec2, sa: IVec2) -> bool {
    a.x <= x < a.x + sa.x && a.y <= y < a.y + sa.y
}

/// Two component areas overlap exactly when some grid cell lies in both:
/// the cell at `(x, y)` belongs to the area at `a` of size `sa` when
/// `a.x <= x < a.x + sa.x` and `a.y <= y < a.y + sa.y`. So areas apart on
/// either axis never overlap.
pub proof fn lemma_boxes_overlap_cells(a: IVec2, sa: IVec2, b: IVec2, sb: IVec2)
    requires
        sa.x > 0 && sa.y > 0 && sb.x > 0 && sb.y > 0,
    ensures
        boxes_overlap(a, sa, b, sb) <==> exists|x: int, y: int| #[trigger] in_area(x, y, a, sa) && #[trigger] in_area(x, y, b, sb),
        a.y + sa.y <= b.y || b.y + sb.y <= a.y || a.x + sa.x <= b.x || b.x + sb.x <= a.x ==> !boxes_overlap(a, sa, b, sb),
{
    if boxes_overlap(a, sa, b, sb) {
        let x: int = if a.x >= b.x { a.x as int } else { b.x as int };
        let y: int = if a.y >= b.y { a.y as int } else { b.y as int };
        assert(in_area(x, y, a, sa) && in_area(x, y, b, sb));
    }
}

/// Every component's area has a positive size on both axes.
pub proof fn lemma_hitbox_positive(kind: CompKind)
    ensures
        spec_hitbox(kind).x > 0 && spec_hitbox(kind).y > 0,
{
}

/// The elements in `v`, copied.
pub fn copy_elems(v: &Vec<ElemIndex>) -> (r: Vec<ElemIndex>)
    ensures
        r@ == v@,
{
    let mut r: Vec<ElemIndex> = Vec::new();
    let mut i: usize = 0;
    while i < v.len()
        invariant
            0 <= i <= v@.len(),
            r@ == v@.take(i as int),
        decreases v@.len() - i,
    {
        r.push(v[i]);
        proof {
            assert(v@.take(i + 1) == v@.take(i as int).push(v@[i as int]));
        }
        i = i + 1;
    }
    assert(v@.take(v@.len() as int) == v@);
    r
}

/// `at + p`, when that is an admissible point.
pub fn shifted(at: IVec2, p: IVec2) -> (r: Option<IVec2>)
    ensures
        r is Some <==> pair_in_range((at.x + p.x, at.y + p.y)),
        r matches Some(q) ==> q.x == at.x + p.x && q.y == at.y + p.y,
{
    let x = at.x as i64 + p.x as i64;
    let y = at.y as i64 + p.y as i64;
    if -16777216 <= x && x <= 16777216 && -16777216 <= y && y <= 16777216 {
        Some(IVec2 { x: x as i32, y: y as i32 })
    } else {
        None
    }
}

/// A component with all the fields of `c` and a copy of its node list.
pub fn duplicate(c: &Component) -> (d: Component)
    ensures
        d.kind == c.kind,
        d.pos == c.pos,
        d.nodes@ == c.nodes@,
        d.id == c.id,
        d.move_request == c.move_request,
        d.selected == c.selected,
{
    Component {
        kind: c.kind,
        pos: c.pos,
        nodes: copy_keys(&c.nodes),
        id: c.id,
        move_request: c.move_request,
        selected: c.selected,
    }
}

/// The smaller of two integers.
pub open spec fn imin(a: int, b: int) -> int {
    if a <= b { a } else { b }
}

/// `off` lowered to cover the element `e` (elements that no longer exist
/// are skipped).
pub open spec fn cover(e: ElemIndex, ws: Map<WireKey, Wire>, cs: Map<CompKey, Component>, off: (int, int)) -> (int, int) {
    match e {
        ElemIndex::Comp(c) => if cs.contains_key(c) {
            (imin(off.0, cs[c].pos.x as int), imin(off.1, cs[c].pos.y as int))
        } else {
            off
        },
        ElemIndex::Wire(w) => if ws.contains_key(w) {
            (
                imin(imin(off.0, ws[w].start.x as int), ws[w].end.x as int),
                imin(imin(off.1, ws[w].start.y as int), ws[w].end.y as int),
            )
        } else {
            off
        },
    }
}

/// The corner the copied group is measured from: the least coordinates
/// over the selected elements, and never above zero.
pub open spec fn copy_offset(sel: Seq<ElemIndex>, ws: Map<WireKey, Wire>, cs: Map<CompKey, Component>) -> (int, int)
    decreases sel.len(),
{
    if sel.len() == 0 {
        (0, 0)
    } else {
        cover(sel.last(), ws, cs, copy_offset(sel.drop_last(), ws, cs))
    }
}

/// `v` is the x coordinate of the live element `e` (of a wire: of either
/// end).
pub open spec fn elem_has_x(e: ElemIndex, ws: Map<WireKey, Wire>, cs: Map<CompKey, Component>, v: int) -> bool {
    match e {
        ElemIndex::Comp(c) => cs.contains_key(c) && cs[c].pos.x == v,
        ElemIndex::Wire(w) => ws.contains_key(w) && (ws[w].start.x == v || ws[w].end.x == v),
    }
}

/// `v` is the y coordinate of the live element `e` (of a wire: of either
/// end).
pub open spec fn elem_has_y(e: ElemIndex, ws: Map<WireKey, Wire>, cs: Map<CompKey, Component>, v: int) -> bool {
    match e {
        ElemIndex::Comp(c) => cs.contains_key(c) && cs[c].pos.y == v,
        ElemIndex::Wire(w) => ws.contains_key(w) && (ws[w].start.y == v || ws[w].end.y == v),
    }
}

/// Every coordinate of element `e`, if it is live, is at least `off` on
/// its axis.
pub open spec fn elem_above(e: ElemIndex, ws: Map<WireKey, Wire>, cs: Map<CompKey, Component>, off: (int, int)) -> bool {
    forall|v: int| (elem_has_x(e, ws, cs, v) ==> off.0 <= v) && (elem_has_y(e, ws, cs, v) ==> off.1 <= v)
}

/// The copy corner is at most zero and at most every coordinate of every
/// live selected element, wire ends included; and on each axis it is zero
/// or the coordinate of one of them.
pub proof fn lemma_copy_offset(sel: Seq<ElemIndex>, ws: Map<WireKey, Wire>, cs: Map<CompKey, Component>)
    ensures
        copy_offset(sel, ws, cs).0 <= 0,
        copy_offset(sel, ws, cs).1 <= 0,
        forall|i: int| 0 <= i < sel.len() ==> elem_above(#[trigger] sel[i], ws, cs, copy_offset(sel, ws, cs)),
        copy_offset(sel, ws, cs).0 == 0 || exists|i: int| 0 <= i < sel.len() && elem_has_x(#[trigger] sel[i], ws, cs, copy_offset(sel, ws, cs).0),
        copy_offset(sel, ws, cs).1 == 0 || exists|i: int| 0 <= i < sel.len() && elem_has_y(#[trigger] sel[i], ws, cs, copy_offset(sel, ws, cs).1),
    decreases sel.len(),
{
    if sel.len() > 0 {
        let rest = sel.drop_last();
        lemma_copy_offset(rest, ws, cs);
        let o0 = copy_offset(rest, ws, cs);
        let o = copy_offset(sel, ws, cs);
        let e = sel.last();
        assert(o == cover(e, ws, cs, o0));
        assert(o.0 <= o0.0 && o.1 <= o0.1);
        assert forall|i: int| 0 <= i < sel.len() implies elem_above(#[trigger] sel[i], ws, cs, o) by {
            if i < sel.len() - 1 {
                assert(sel[i] == rest[i]);
                assert(elem_above(rest[i], ws, cs, o0));
            }
        }
        if o.0 != 0 {
            if o.0 == o0.0 {
                let i = choose|i: int| 0 <= i < rest.len() && elem_has_x(#[trigger] rest[i], ws, cs, o0.0);
                assert(sel[i] == rest[i]);
            } else {
                assert(elem_has_x(sel[sel.len() - 1], ws, cs, o.0));
            }
        }
        if o.1 != 0 {
            if o.1 == o0.1 {
                let i = choose|i: int| 0 <= i < rest.len() && elem_has_y(#[trigger] rest[i], ws, cs, o0.1);
                assert(sel[i] == rest[i]);
            } else {
                assert(elem_has_y(sel[sel.len() - 1], ws, cs, o.1));
            }
        }
    }
}

/// Every coordinate in clipboard element `e` is zero or more.
pub open spec fn clip_nonneg(e: ClipboardElement) -> bool {
    match e {
        ClipboardElement::Wire { start, end } => start.x >= 0 && start.y >= 0 && end.x >= 0 && end.y >= 0,
        ClipboardElement::Component { kind: _, pos } => pos.x >= 0 && pos.y >= 0,
    }
}

/// Measured from a corner at most every coordinate of the selected
/// elements (all admissible), no clipboard coordinate is negative.
pub proof fn lemma_clip_nonneg(sel: Seq<ElemIndex>, ws: Map<WireKey, Wire>, cs: Map<CompKey, Component>, off: (int, int))
    requires
        -0x100_0000 <= off.0 <= 0,
        -0x100_0000 <= off.1 <= 0,
        forall|i: int| 0 <= i < sel.len() ==> elem_above(#[trigger] sel[i], ws, cs, off),
        forall|c: CompKey| #[trigger] cs.contains_key(c) ==> cs[c].pos.in_range(),
        forall|w: WireKey| #[trigger] ws.contains_key(w) ==> ws[w].start.in_range() && ws[w].end.in_range(),
    ensures
        forall|j: int| 0 <= j < clip_of(sel, ws, cs, off).len() ==> clip_nonneg(#[trigger] clip_of(sel, ws, cs, off)[j]),
    decreases sel.len(),
{
    if sel.len() > 0 {
        let rest = sel.drop_last();
        assert forall|i: int| 0 <= i < rest.len() implies elem_above(#[trigger] rest[i], ws, cs, off) by {
            assert(rest[i] == sel[i]);
        }
        lemma_clip_nonneg(rest, ws, cs, off);
        let e = sel.last();
        assert(elem_above(sel[sel.len() - 1], ws, cs, off));
        match e {
            ElemIndex::Comp(c) => {
                if cs.contains_key(c) {
                    assert(elem_has_x(e, ws, cs, cs[c].pos.x as int));
                    assert(elem_has_y(e, ws, cs, cs[c].pos.y as int));
                }
            },
            ElemIndex::Wire(w) => {
                if ws.contains_key(w) {
                    assert(elem_has_x(e, ws, cs, ws[w].start.x as int));
                    assert(elem_has_x(e, ws, cs, ws[w].end.x as int));
                    assert(elem_has_y(e, ws, cs, ws[w].start.y as int));
                    assert(elem_has_y(e, ws, cs, ws[w].end.y as int));
                }
            },
        }
        let r = clip_of(rest, ws, cs, off);
        let full = clip_of(sel, ws, cs, off);
        assert forall|j: int| 0 <= j < full.len() implies clip_nonneg(#[trigger] full[j]) by {
            if j < r.len() {
                assert(full[j] == r[j]);
            } else {
                match e {
                    ElemIndex::Comp(c) => {
                        assert(full[j] == ClipboardElement::Component {
                            kind: cs[c].kind,
                            pos: mk((cs[c].pos.x - off.0, cs[c].pos.y - off.1)),
                        });
                    },
                    ElemIndex::Wire(w) => {
                        assert(full[j] == ClipboardElement::Wire {
                            start: mk((ws[w].start.x - off.0, ws[w].start.y - off.1)),
                            end: mk((ws[w].end.x - off.0, ws[w].end.y - off.1)),
                        });
                    },
                }
            }
        }
    }
}

/// With every selected element live, the clipboard holds one entry per
/// selected element, in selection order, of the same kind, each coordinate
/// measured from the corner `off`: adding `off` back gives the element's
/// own coordinates.
pub proof fn lemma_clip_entries(sel: Seq<ElemIndex>, ws: Map<WireKey, Wire>, cs: Map<CompKey, Component>, off: (int, int))
    requires
        -0x100_0000 <= off.0 <= 0,
        -0x100_0000 <= off.1 <= 0,
        forall|i: int| 0 <= i < sel.len() ==> elem_above(#[trigger] sel[i], ws, cs, off),
        forall|i: int| 0 <= i < sel.len() ==> match #[trigger] sel[i] {
            ElemIndex::Comp(c) => cs.contains_key(c),
            ElemIndex::Wire(w) => ws.contains_key(w),
        },
        forall|c: CompKey| #[trigger] cs.contains_key(c) ==> cs[c].pos.in_range(),
        forall|w: WireKey| #[trigger] ws.contains_key(w) ==> ws[w].start.in_range() && ws[w].end.in_range(),
    ensures
        clip_of(sel, ws, cs, off).len() == sel.len(),
        forall|j: int| 0 <= j < sel.len() ==> match (#[trigger] sel[j], clip_of(sel, ws, cs, off)[j]) {
            (ElemIndex::Comp(c), ClipboardElement::Component { kind, pos }) =>
                kind == cs[c].kind && pos.x + off.0 == cs[c].pos.x && pos.y + off.1 == cs[c].pos.y,
            (ElemIndex::Wire(w), ClipboardElement::Wire { start, end }) =>
                start.x + off.0 == ws[w].start.x && start.y + off.1 == ws[w].start.y
                    && end.x + off.0 == ws[w].end.x && end.y + off.1 == ws[w].end.y,
            _ => false,
        },
    decreases sel.len(),
{
    if sel.len() > 0 {
        let rest = sel.drop_last();
        assert forall|i: int| 0 <= i < rest.len() implies elem_above(#[trigger] rest[i], ws, cs, off) by {
            assert(rest[i] == sel[i]);
        }
        assert forall|i: int| 0 <= i < rest.len() implies match #[trigger] rest[i] {
            ElemIndex::Comp(c) => cs.contains_key(c),
            ElemIndex::Wire(w) => ws.contains_key(w),
        } by {
            assert(rest[i] == sel[i]);
        }
        lemma_clip_entries(rest, ws, cs, off);
        let e = sel.last();
        assert(elem_above(sel[sel.len() - 1], ws, cs, off));
        let r = clip_of(rest, ws, cs, off);
        let full = clip_of(sel, ws, cs, off);
        match e {
            ElemIndex::Comp(c) => {
                assert(elem_has_x(e, ws, cs, cs[c].pos.x as int));
                assert(elem_has_y(e, ws, cs, cs[c].pos.y as int));
            },
            ElemIndex::Wire(w) => {
                assert(elem_has_x(e, ws, cs, ws[w].start.x as int));
                assert(elem_has_x(e, ws, cs, ws[w].end.x as int));
                assert(elem_has_y(e, ws, cs, ws[w].start.y as int));
                assert(elem_has_y(e, ws, cs, ws[w].end.y as int));
            },
        }
        assert forall|j: int| 0 <= j < sel.len() implies match (#[trigger] sel[j], full[j]) {
            (ElemIndex::Comp(c), ClipboardElement::Component { kind, pos }) =>
                kind == cs[c].kind && pos.x + off.0 == cs[c].pos.x && pos.y + off.1 == cs[c].pos.y,
            (ElemIndex::Wire(w), ClipboardElement::Wire { start, end }) =>
                start.x + off.0 == ws[w].start.x && start.y + off.1 == ws[w].start.y
                    && end.x + off.0 == ws[w].end.x && end.y + off.1 == ws[w].end.y,
            _ => false,
        } by {
            if j < rest.len() {
                assert(full[j] == r[j]);
                assert(sel[j] == rest[j]);
            }
        }
    }
}

/// The clipboard entries for the selected elements, relative to `off`.
pub open spec fn clip_of(sel: Seq<ElemIndex>, ws: Map<WireKey, Wire>, cs: Map<CompKey, Component>, off: (int, int)) -> Seq<ClipboardElement>
    decreases sel.len(),
{
    if sel.len() == 0 {
        Seq::empty()
    } else {
        let rest = clip_of(sel.drop_last(), ws, cs, off);
        match sel.last() {
            ElemIndex::Comp(c) => if cs.contains_key(c) {
                rest.push(ClipboardElement::Component {
                    kind: cs[c].kind,
                    pos: mk((cs[c].pos.x - off.0, cs[c].pos.y - off.1)),
                })
            } else {
                rest
            },
            ElemIndex::Wire(w) => if ws.contains_key(w) {
                rest.push(ClipboardElement::Wire {
                    start: mk((ws[w].start.x - off.0, ws[w].start.y - off.1)),
                    end: mk((ws[w].end.x - off.0, ws[w].end.y - off.1)),
                })
            } else {
                rest
            },
        }
    }
}

/// `h2` is `h1` with more actions added to the step being recorded.
pub open spec fn extends_step(h1: History, h2: History) -> bool {
    &&& h2.recording == h1.recording
    &&& h2.cursor == h1.cursor
    &&& h2.log().len() == h1.log().len()
    &&& forall|i: int| 0 <= i < h1.log().len() && i != h1.cursor ==> #[trigger] h2.log()[i] == h1.log()[i]
    &&& h1.cursor < h1.log().len() ==> h1.log()[h1.cursor as int].is_prefix_of(h2.log()[h1.cursor as int])
}

/// `h2` extends the step being recorded in `h1` with wire additions and
/// wire rewrites only.
pub open spec fn wire_step(h1: History, h2: History) -> bool {
    &&& extends_step(h1, h2)
    &&& h1.cursor < h1.log().len() ==> forall|j: int| h1.log()[h1.cursor as int].len() <= j < h2.log()[h1.cursor as int].len()
        ==> (#[trigger] h2.log()[h1.cursor as int][j] is AddWire || h2.log()[h1.cursor as int][j] is OverwriteWire)
}

/// Two extensions by wire actions make one.
pub proof fn lemma_wire_step_trans(h1: History, h2: History, h3: History)
    requires
        wire_step(h1, h2),
        wire_step(h2, h3),
    ensures
        wire_step(h1, h3),
{
    lemma_extends_step_trans(h1, h2, h3);
    if h1.cursor < h1.log().len() {
        let c = h1.cursor as int;
        assert forall|j: int| h1.log()[c].len() <= j < h3.log()[c].len()
            implies (#[trigger] h3.log()[c][j] is AddWire || h3.log()[c][j] is OverwriteWire) by {
            if j < h2.log()[c].len() {
                assert(h3.log()[c][j] == h2.log()[c][j]);
            }
        }
    }
}

/// Adding actions to a step twice is adding actions to it.
pub proof fn lemma_extends_step_trans(h1: History, h2: History, h3: History)
    requires
        extends_step(h1, h2),
        extends_step(h2, h3),
    ensures
        extends_step(h1, h3),
{
    if h1.cursor < h1.log().len() {
        let a = h1.log()[h1.cursor as int];
        let b = h2.log()[h1.cursor as int];
        let c = h3.log()[h1.cursor as int];
        assert(a.is_prefix_of(c)) by {
            assert forall|i: int| 0 <= i < a.len() implies a[i] == c[i] by {
                assert(a[i] == b[i]);
            }
        }
    }
}

/// The wire runs from `from` to `to` (or, with `either`, the other way).
pub open spec fn wire_matches(w: Wire, from: IVec2, to: IVec2, either: bool) -> bool {
    (w.start == from && w.end == to) || (either && w.end == from && w.start == to)
}

} // verus!
