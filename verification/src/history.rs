//! Edit actions and the undo/redo history.
use vstd::prelude::*;
use crate::component::CompKind;
use crate::geometry::{IVec2, vadd, pair_in_range, mk};

verus! {

/// One reversible edit of the circuit.
#[derive(PartialEq, Eq, Structural, Debug, Clone, Copy)]
pub enum Action {
    AddComp { to: IVec2, kind: CompKind },
    DeleteComp { at: IVec2, kind: CompKind },
    MoveComp { from: IVec2, to: IVec2 },
    MoveWire { from: IVec2, to: IVec2, by: IVec2 },
    AddWire { from: IVec2, to: IVec2 },
    DeleteWire { from: IVec2, to: IVec2 },
    OverwriteWire { oldstart: IVec2, oldend: IVec2, newstart: IVec2, newend: IVec2 },
}

/// Every point an action names is an admissible canvas point, and so are
/// the ends of a wire after a move.
pub open spec fn action_in_range(a: Action) -> bool {
    match a {
        Action::AddComp { to, kind: _ } => to.in_range(),
        Action::DeleteComp { at, kind: _ } => at.in_range(),
        Action::MoveComp { from, to } => from.in_range() && to.in_range(),
        Action::MoveWire { from, to, by } => from.in_range() && to.in_range() && by.in_range()
            && pair_in_range(vadd(from, by)) && pair_in_range(vadd(to, by)),
        Action::AddWire { from, to } => from.in_range() && to.in_range(),
        Action::DeleteWire { from, to } => from.in_range() && to.in_range(),
        Action::OverwriteWire { oldstart, oldend, newstart, newend } => oldstart.in_range()
            && oldend.in_range() && newstart.in_range() && newend.in_range(),
    }
}

/// Whether `p` is an admissible canvas point.
pub fn in_range(p: IVec2) -> (r: bool)
    ensures
        r == p.in_range(),
{
    -16777216 <= p.x && p.x <= 16777216 && -16777216 <= p.y && p.y <= 16777216
}

/// The action that undoes `a`.
pub open spec fn spec_reverse(a: Action) -> Action {
    match a {
        Action::AddComp { to, kind } => Action::DeleteComp { at: to, kind },
        Action::DeleteComp { at, kind } => Action::AddComp { to: at, kind },
        Action::MoveComp { from, to } => Action::MoveComp { from: to, to: from },
        Action::MoveWire { from, to, by } => Action::MoveWire {
            from: mk(vadd(from, by)),
            to: mk(vadd(to, by)),
            by: IVec2 { x: (-by.x) as i32, y: (-by.y) as i32 },
        },
        Action::AddWire { from, to } => Action::DeleteWire { from, to },
        Action::DeleteWire { from, to } => Action::AddWire { from, to },
        Action::OverwriteWire { oldstart, oldend, newstart, newend } => Action::OverwriteWire {
            oldstart: newstart,
            oldend: newend,
            newstart: oldstart,
            newend: oldend,
        },
    }
}

impl Action {
    /// Whether every point this action names is admissible (see
    /// `action_in_range`).
    pub fn check_in_range(&self) -> (r: bool)
        ensures
            r == action_in_range(*self),
    {
        match *self {
            Action::AddComp { to, kind: _ } => in_range(to),
            Action::DeleteComp { at, kind: _ } => in_range(at),
            Action::MoveComp { from, to } => in_range(from) && in_range(to),
            Action::MoveWire { from, to, by } => {
                in_range(from) && in_range(to) && in_range(by) && from.checked_plus(by).is_some()
                    && to.checked_plus(by).is_some()
            },
            Action::AddWire { from, to } => in_range(from) && in_range(to),
            Action::DeleteWire { from, to } => in_range(from) && in_range(to),
            Action::OverwriteWire { oldstart, oldend, newstart, newend } => in_range(oldstart) && in_range(oldend)
                && in_range(newstart) && in_range(newend),
        }
    }

    /// The action that undoes this one.
    pub fn reverse(&self) -> (r: Action)
        requires
            action_in_range(*self),
        ensures
            r == spec_reverse(*self),
            action_in_range(r),
    {
        match *self {
            Action::AddComp { to, kind } => Action::DeleteComp { at: to, kind },
            Action::DeleteComp { at, kind } => Action::AddComp { to: at, kind },
            Action::MoveComp { from, to } => Action::MoveComp { from: to, to: from },
            Action::MoveWire { from, to, by } => Action::MoveWire {
                from: from.plus(by),
                to: to.plus(by),
                by: by.negated(),
            },
            Action::AddWire { from, to } => Action::DeleteWire { from, to },
            Action::DeleteWire { from, to } => Action::AddWire { from, to },
            Action::OverwriteWire { oldstart, oldend, newstart, newend } => Action::OverwriteWire {
                oldstart: newstart,
                oldend: newend,
                newstart: oldstart,
                newend: oldend,
            },
        }
    }
}

/// Reversing an action twice gives the action back.
pub proof fn lemma_reverse_involution(a: Action)
    requires
        action_in_range(a),
    ensures
        action_in_range(spec_reverse(a)),
        spec_reverse(spec_reverse(a)) == a,
{
}

/// The actions recorded as one undoable step.
pub struct Timepoint {
    pub actions: Vec<Action>,
}

impl Timepoint {
    pub fn new() -> (t: Timepoint)
        ensures
            t.actions@ == Seq::<Action>::empty(),
    {
        Timepoint { actions: Vec::new() }
    }
}

/// The undo/redo history: a list of steps and a cursor. The steps before the
/// cursor are done; those from the cursor on can be redone. While a step is
/// being recorded it is the one at the cursor.
pub struct History {
    pub records: Vec<Timepoint>,
    pub cursor: usize,
    pub recording: bool,
}

impl History {
    /// The steps, each as its sequence of actions.
    pub open spec fn log(&self) -> Seq<Seq<Action>> {
        self.records@.map_values(|t: Timepoint| t.actions@)
    }

    /// The cursor is within the steps, and at a step while recording.
    pub open spec fn wf(&self) -> bool {
        &&& self.cursor <= self.records@.len()
        &&& self.recording ==> self.cursor < self.records@.len()
    }

    /// An empty history.
    pub fn new() -> (h: History)
        ensures
            h.wf(),
            h.log() == Seq::<Seq<Action>>::empty(),
            h.cursor == 0,
            !h.recording,
    {
        let h = History { records: Vec::new(), cursor: 0, recording: false };
        assert(h.log() =~= Seq::<Seq<Action>>::empty());
        h
    }

    /// Begins recording a step at the cursor: the steps after the cursor are
    /// dropped, and if there is no step at the cursor an empty one is added.
    pub fn start(&mut self)
        requires
            old(self).wf(),
            !old(self).recording,
        ensures
            final(self).wf(),
            final(self).recording,
            final(self).cursor == old(self).cursor,
            final(self).log() == (if old(self).cursor < old(self).log().len() {
                old(self).log().subrange(0, old(self).cursor + 1)
            } else {
                old(self).log().push(Seq::<Action>::empty())
            }),
    {
        let ghost l0 = self.log();
        self.recording = true;
        if self.cursor < self.records.len() {
            self.records.truncate(self.cursor + 1);
            assert(self.log() =~= l0.subrange(0, self.cursor + 1));
        } else {
            self.records.push(Timepoint::new());
            assert(self.log() =~= l0.push(Seq::<Action>::empty()));
        }
    }

    /// Ends the step being recorded; the cursor moves past it.
    pub fn end(&mut self)
        requires
            old(self).wf(),
            old(self).recording,
        ensures
            final(self).wf(),
            !final(self).recording,
            final(self).cursor == old(self).cursor + 1,
            final(self).log() == old(self).log(),
    {
        let n = self.records.len();
        assert(self.cursor < n);
        self.recording = false;
        self.cursor = self.cursor + 1;
    }

    /// Adds `a` to the step being recorded.
    pub fn record(&mut self, a: Action)
        requires
            old(self).wf(),
            old(self).recording,
        ensures
            final(self).wf(),
            final(self).recording,
            final(self).cursor == old(self).cursor,
            final(self).log() == old(self).log().update(
                old(self).cursor as int,
                old(self).log()[old(self).cursor as int].push(a),
            ),
    {
        let ghost l0 = self.log();
        let c = self.cursor;
        let mut tail: Vec<Timepoint> = self.records.split_off(c);
        let mut tp = tail.remove(0);
        tp.actions.push(a);
        self.records.push(tp);
        self.records.append(&mut tail);
        assert(self.log() =~= l0.update(c as int, l0[c as int].push(a)));
    }

    /// Steps back: the cursor moves onto the last done step, whose actions
    /// are returned (to be undone from last to first); `None` when nothing
    /// is done.
    pub fn step_back(&mut self) -> (r: Option<Vec<Action>>)
        requires
            old(self).wf(),
        ensures
            final(self).wf(),
            final(self).log() == old(self).log(),
            final(self).recording == old(self).recording,
            old(self).cursor == 0 ==> r is None && *final(self) == *old(self),
            old(self).cursor > 0 ==> final(self).cursor == old(self).cursor - 1
                && (r matches Some(v) && v@ == old(self).log()[old(self).cursor - 1]),
    {
        if self.cursor == 0 {
            None
        } else {
            self.cursor = self.cursor - 1;
            let v = copy_actions(&self.records[self.cursor].actions);
            Some(v)
        }
    }

    /// Steps forward: returns the actions of the step at the cursor (to be
    /// redone in order) and moves the cursor past it; `None` when there is
    /// nothing to redo.
    pub fn step_forward(&mut self) -> (r: Option<Vec<Action>>)
        requires
            old(self).wf(),
            !old(self).recording,
        ensures
            final(self).wf(),
            final(self).log() == old(self).log(),
            !final(self).recording,
            old(self).cursor >= old(self).log().len() ==> r is None && *final(self) == *old(self),
            old(self).cursor < old(self).log().len() ==> final(self).cursor == old(self).cursor + 1
                && (r matches Some(v) && v@ == old(self).log()[old(self).cursor as int]),
    {
        if self.cursor >= self.records.len() {
            None
        } else {
            let v = copy_actions(&self.records[self.cursor].actions);
            self.cursor = self.cursor + 1;
            Some(v)
        }
    }
}

/// The actions in `v`, copied.
pub fn copy_actions(v: &Vec<Action>) -> (r: Vec<Action>)
    ensures
        r@ == v@,
{
    let mut r: Vec<Action> = Vec::new();
    let mut i: usize = 0;
    while i < v.len()
        invariant
            0 <= i <= v@.len(),
            r@ == v@.take(i as int),
        decreases v@.len() - i,
    {
        r.push(v[i]);
        proof {
            assert(v@.take(i + 1) == v@.take(i as int).push(v@[i as int]));
        }
        i = i + 1;
    }
    assert(v@.take(v@.len() as int) == v@);
    r
}

/// Undoing and then redoing a step leaves the history as it was and hands
/// out the same actions both ways.
pub proof fn lemma_undo_redo(h: History, h1: History, h2: History, back: Seq<Action>, fwd: Seq<Action>)
    requires
        h.wf(),
        !h.recording,
        h.cursor > 0,
        h1.log() == h.log() && h1.cursor == h.cursor - 1 && h1.recording == h.recording
            && back == h.log()[h.cursor - 1],
        h2.log() == h1.log() && h2.cursor == h1.cursor + 1 && h2.recording == h1.recording
            && fwd == h1.log()[h1.cursor as int],
    ensures
        h2.log() == h.log(),
        h2.cursor == h.cursor,
        fwd == back,
{
}

} // verus!
