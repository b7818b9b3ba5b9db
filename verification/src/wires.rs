//! Wires: straight segments between two grid points.
use vstd::prelude::*;
use crate::arena::{NodeKey, WireArena, WireKey, CompArena, wire_slots, wire_keys_listed};
use crate::geometry::{IVec2, vadd, mk, pair_in_range, as_pair, key_of, lemma_key_of_injective, cross};
use crate::logic::{LL, spec_merge};
use crate::nodes::{Node, NodeHandler, ElemIndex, set_nodes, bump, relevel};

verus! {

/// A wire from `start` to `end`, with the nodes at its two ends.
#[derive(PartialEq, Eq, Structural, Debug, Clone, Copy)]
pub struct Wire {
    pub start: IVec2,
    pub end: IVec2,
    pub startnode: Option<NodeKey>,
    pub endnode: Option<NodeKey>,
    pub selected: bool,
}


/// `p` lies on the segment from `s` to `e`, strictly between its ends; on
/// a segment of length zero (`s == e`) this holds of every other point.
pub open spec fn spec_touches(s: IVec2, e: IVec2, p: IVec2) -> bool {
    let vx = e.x - s.x;
    let vy = e.y - s.y;
    let wx = p.x - s.x;
    let wy = p.y - s.y;
    &&& p != s
    &&& p != e
    &&& vx * wy - vy * wx == 0
    &&& 0 <= wx * vx + wy * vy <= vx * vx + vy * vy
}

impl Wire {
    /// A wire from `start` to `end` with no nodes yet.
    pub fn skeleton(start: IVec2, end: IVec2) -> (w: Wire)
        ensures
            w == (Wire { start, end, startnode: None, endnode: None, selected: false }),
    {
        Wire { start, end, startnode: None, endnode: None, selected: false }
    }

    /// Whether `p` lies on this wire strictly between its ends.
    pub fn touches(&self, p: IVec2) -> (r: bool)
        requires
            self.start.in_range(),
            self.end.in_range(),
            p.in_range(),
        ensures
            r == spec_touches(self.start, self.end, p),
    {
        if self.start == p {
            return false;
        }
        if self.end == p {
            return false;
        }
        let vx: i64 = self.end.x as i64 - self.start.x as i64;
        let vy: i64 = self.end.y as i64 - self.start.y as i64;
        let wx: i64 = p.x as i64 - self.start.x as i64;
        let wy: i64 = p.y as i64 - self.start.y as i64;
        assert(-0x400_0000 <= vx <= 0x400_0000 && -0x400_0000 <= vy <= 0x400_0000);
        assert(-0x400_0000 <= wx <= 0x400_0000 && -0x400_0000 <= wy <= 0x400_0000);
        assert(-0x10_0000_0000_0000 <= vx * wy <= 0x10_0000_0000_0000) by (nonlinear_arith)
            requires -0x400_0000 <= vx <= 0x400_0000, -0x400_0000 <= wy <= 0x400_0000;
        assert(-0x10_0000_0000_0000 <= vy * wx <= 0x10_0000_0000_0000) by (nonlinear_arith)
            requires -0x400_0000 <= vy <= 0x400_0000, -0x400_0000 <= wx <= 0x400_0000;
        assert(-0x10_0000_0000_0000 <= wx * vx <= 0x10_0000_0000_0000) by (nonlinear_arith)
            requires -0x400_0000 <= vx <= 0x400_0000, -0x400_0000 <= wx <= 0x400_0000;
        assert(-0x10_0000_0000_0000 <= wy * vy <= 0x10_0000_0000_0000) by (nonlinear_arith)
            requires -0x400_0000 <= vy <= 0x400_0000, -0x400_0000 <= wy <= 0x400_0000;
        assert(0 <= vx * vx <= 0x10_0000_0000_0000) by (nonlinear_arith)
            requires -0x400_0000 <= vx <= 0x400_0000;
        assert(0 <= vy * vy <= 0x10_0000_0000_0000) by (nonlinear_arith)
            requires -0x400_0000 <= vy <= 0x400_0000;
        let cross = vx * wy - vy * wx;
        if cross != 0 {
            return false;
        }
        let dot = wx * vx + wy * vy;
        if dot < 0 || dot > vx * vx + vy * vy {
            return false;
        }
        true
    }

    /// Cuts this wire at `at` (a point strictly inside it): this wire now
    /// ends at `at`, and the returned wire runs from `at` to the old end.
    pub fn split(&mut self, at: IVec2) -> (rest: Wire)
        requires
            spec_touches(old(self).start, old(self).end, at),
        ensures
            *final(self) == (Wire { end: at, ..*old(self) }),
            rest == Wire::skeleton_spec(at, old(self).end),
    {
        let oldend = self.end;
        self.end = at;
        Wire { start: at, end: oldend, startnode: None, endnode: None, selected: false }
    }

    pub open spec fn skeleton_spec(start: IVec2, end: IVec2) -> Wire {
        Wire { start, end, startnode: None, endnode: None, selected: false }
    }

    /// Moves this wire's ends (and so its nodes) to `start` and `end`: the
    /// nodes of wire `oldidx` on the old ends are taken out and put back
    /// on the new ends with their levels and pass marks; the wire records
    /// the keys of the new nodes.
    #[verifier::rlimit(60)]
    pub fn overwrite(&mut self, start: IVec2, end: IVec2, nodes: &mut NodeHandler, oldidx: WireKey)
        requires
            old(nodes).wf(),
            start.in_range(),
            end.in_range(),
            old(self).start != old(self).end,
            old(nodes).at(old(self).start).len() > 0,
            exists|i: int| 0 <= i < old(nodes).at(old(self).start).len()
                && #[trigger] old(nodes).slots()[old(nodes).at(old(self).start)[i]].owner == Some(ElemIndex::Wire(oldidx)),
            forall|i: int| 0 <= i < old(nodes).at(old(self).start).len()
                ==> (#[trigger] old(nodes).slots()[old(nodes).at(old(self).start)[i]].owner) is Some,
            exists|i: int| 0 <= i < old(nodes).at(old(self).end).len()
                && #[trigger] old(nodes).slots()[old(nodes).at(old(self).end)[i]].owner == Some(ElemIndex::Wire(oldidx)),
            forall|i: int| 0 <= i < old(nodes).at(old(self).end).len()
                ==> (#[trigger] old(nodes).slots()[old(nodes).at(old(self).end)[i]].owner) is Some,
        ensures
            final(nodes).wf(),
            final(self).start == start,
            final(self).end == end,
            final(self).selected == old(self).selected,
            final(self).startnode matches Some(a) && final(nodes).slots().contains_key(a)
                && final(nodes).slots()[a].pos == start
                && final(nodes).slots()[a].owner == Some(ElemIndex::Wire(oldidx)),
            final(self).endnode matches Some(b) && final(nodes).slots().contains_key(b)
                && final(nodes).slots()[b].pos == end
                && final(nodes).slots()[b].owner == Some(ElemIndex::Wire(oldidx)),
            exists|i: int, j: int| #![trigger old(nodes).at(old(self).start)[i], old(nodes).at(old(self).end)[j]]
                0 <= i < old(nodes).at(old(self).start).len() && 0 <= j < old(nodes).at(old(self).end).len() && {
                let n1 = old(nodes).slots()[old(nodes).at(old(self).start)[i]];
                let n2 = old(nodes).slots()[old(nodes).at(old(self).end)[j]];
                let fa = final(nodes).slots()[final(self).startnode->0];
                let fb = final(nodes).slots()[final(self).endnode->0];
                &&& n1.owner == Some(ElemIndex::Wire(oldidx))
                &&& n2.owner == Some(ElemIndex::Wire(oldidx))
                &&& fa.generation == n1.generation
                &&& fb.generation == n2.generation
                &&& !fa.output && !fb.output
                &&& n2.logic_lvl != LL::U ==> fb.logic_lvl == n2.logic_lvl
                &&& start != end && n1.logic_lvl != LL::U ==> fa.logic_lvl == n1.logic_lvl
            },
    {
        let node1 = nodes.remove_node(self.start, ElemIndex::Wire(oldidx));
        let ghost h1 = *nodes;
        proof {
            let e = old(self).end;
            let s0 = old(nodes).slots();
            assert(h1.at(e) == old(nodes).at(e));
            assert forall|i: int| 0 <= i < h1.at(e).len() implies
                h1.slots()[h1.at(e)[i]] == s0[old(nodes).at(e)[i]] by {
                let k = old(nodes).at(e)[i];
                assert(old(nodes).table().contains_key(key_of(e)));
                assert(s0.contains_key(k) && key_of(s0[k].pos) == key_of(e));
                lemma_key_of_injective(s0[k].pos, e);
                if old(nodes).at(old(self).start).contains(k) {
                    let j = choose|j: int| 0 <= j < old(nodes).at(old(self).start).len() && old(nodes).at(old(self).start)[j] == k;
                    assert(old(nodes).table().contains_key(key_of(old(self).start)));
                    lemma_key_of_injective(s0[k].pos, old(self).start);
                }
                assert(h1.slots().contains_key(k));
            }
            let wi = choose|i: int| 0 <= i < old(nodes).at(e).len()
                && #[trigger] s0[old(nodes).at(e)[i]].owner == Some(ElemIndex::Wire(oldidx));
            assert(h1.slots()[h1.at(e)[wi]].owner == Some(ElemIndex::Wire(oldidx)));
        }
        let node2 = nodes.remove_node(self.end, ElemIndex::Wire(oldidx));
        self.start = start;
        self.end = end;
        let a = nodes.add_node(Node {
            pos: start,
            owner: Some(ElemIndex::Wire(oldidx)),
            logic_lvl: node1.logic_lvl,
            generation: node1.generation,
            output: false,
        });
        let ghost h2 = *nodes;
        let b = nodes.add_node(Node {
            pos: end,
            owner: Some(ElemIndex::Wire(oldidx)),
            logic_lvl: node2.logic_lvl,
            generation: node2.generation,
            output: false,
        });
        proof {
            assert(h2.slots().contains_key(a));
            assert(nodes.slots()[a].pos == h2.slots()[a].pos);
            assert(nodes.slots()[a].owner == h2.slots()[a].owner);
        }
        self.startnode = Some(a);
        self.endnode = Some(b);
        proof {
            let s0 = old(nodes).slots();
            let os = old(self).start;
            let oe = old(self).end;
            let i = choose|i: int| 0 <= i < old(nodes).at(os).len()
                && s0[old(nodes).at(os)[i]].owner == Some(ElemIndex::Wire(oldidx))
                && node1 == s0[old(nodes).at(os)[i]]
                && forall|j2: int| i < j2 < old(nodes).at(os).len()
                    ==> #[trigger] s0[old(nodes).at(os)[j2]].owner != Some(ElemIndex::Wire(oldidx));
            let j = choose|j: int| 0 <= j < h1.at(oe).len()
                && h1.slots()[h1.at(oe)[j]].owner == Some(ElemIndex::Wire(oldidx))
                && node2 == h1.slots()[h1.at(oe)[j]]
                && forall|j2: int| j < j2 < h1.at(oe).len()
                    ==> #[trigger] h1.slots()[h1.at(oe)[j2]].owner != Some(ElemIndex::Wire(oldidx));
            assert(node2 == s0[old(nodes).at(oe)[j]]);
            let fa = nodes.slots()[a];
            let fb = nodes.slots()[b];
            assert(fb.generation == node2.generation && !fb.output);
            assert(node2.logic_lvl != LL::U ==> fb.logic_lvl == node2.logic_lvl);
            assert(h2.slots()[a].generation == node1.generation && !h2.slots()[a].output);
            assert(fa.generation == node1.generation && !fa.output);
            if start != end {
                assert(!h2.at(end).contains(a)) by {
                    if h2.at(end).contains(a) {
                        lemma_at_iff(h2, end, a);
                    }
                }
                assert(fa == h2.slots()[a]);
            }
            assert(start != end && node1.logic_lvl != LL::U ==> fa.logic_lvl == node1.logic_lvl);
            assert(old(nodes).at(os)[i] == old(nodes).at(os)[i] && old(nodes).at(oe)[j] == old(nodes).at(oe)[j]);
        }
    }
}

/// The wire can be moved by `by`: it has two distinct nodes, both stored,
/// both belonging to wire `widx`, and every end and node stays admissible.
pub open spec fn wire_movable(wire: Wire, h: NodeHandler, widx: WireKey, by: IVec2) -> bool {
    &&& wire.startnode matches Some(a)
    &&& wire.endnode matches Some(b)
    &&& a != b
    &&& h.slots().contains_key(a)
    &&& h.slots().contains_key(b)
    &&& h.slots()[a].owner == Some(ElemIndex::Wire(widx))
    &&& h.slots()[b].owner == Some(ElemIndex::Wire(widx))
    &&& pair_in_range(vadd(h.slots()[a].pos, by))
    &&& pair_in_range(vadd(h.slots()[b].pos, by))
    &&& pair_in_range(vadd(wire.start, by))
    &&& pair_in_range(vadd(wire.end, by))
}

impl Wire {
    /// Moves the wire and its two nodes by `by` (each node move starts new
    /// passes that settle the nets it leaves and joins). Returns `false`
    /// and changes nothing when the wire cannot be moved (see
    /// `wire_movable`).
    pub fn move_by(
        &mut self,
        by: IVec2,
        widx: WireKey,
        nodes: &mut NodeHandler,
        wires: &Wires,
        comps: &CompArena,
        generation: &mut u32,
    ) -> (moved: bool)
        requires
            old(nodes).wf(),
            by.in_range(),
            old(self).start.in_range(),
            old(self).end.in_range(),
        ensures
            final(nodes).wf(),
            moved == wire_movable(*old(self), *old(nodes), widx, by),
            !moved ==> *final(self) == *old(self) && *final(nodes) == *old(nodes),
            !moved ==> *final(generation) == *old(generation),
            moved ==> *final(self) == (Wire {
                start: mk(vadd(old(self).start, by)),
                end: mk(vadd(old(self).end, by)),
                ..*old(self)
            }),
            moved ==> final(nodes).slots().dom() == old(nodes).slots().dom(),
            moved ==> final(nodes).slots()[old(self).startnode.unwrap()].pos
                == mk(vadd(old(nodes).slots()[old(self).startnode.unwrap()].pos, by)),
            moved ==> final(nodes).slots()[old(self).endnode.unwrap()].pos
                == mk(vadd(old(nodes).slots()[old(self).endnode.unwrap()].pos, by)),
    {
        let (a, b) = match (self.startnode, self.endnode) {
            (Some(a), Some(b)) => (a, b),
            _ => {
                return false;
            },
        };
        if a == b {
            return false;
        }
        let na = match nodes.node_storage.get(a) {
            Some(n) => *n,
            None => {
                return false;
            },
        };
        let nb = match nodes.node_storage.get(b) {
            Some(n) => *n,
            None => {
                return false;
            },
        };
        if na.owner != Some(ElemIndex::Wire(widx)) || nb.owner != Some(ElemIndex::Wire(widx)) {
            return false;
        }
        let ns = match self.start.checked_plus(by) {
            Some(p) => p,
            None => {
                return false;
            },
        };
        let ne = match self.end.checked_plus(by) {
            Some(p) => p,
            None => {
                return false;
            },
        };
        match na.pos.checked_plus(by) {
            Some(_) => {},
            None => {
                return false;
            },
        }
        match nb.pos.checked_plus(by) {
            Some(_) => {},
            None => {
                return false;
            },
        }
        self.start = ns;
        nodes.move_node(a, by, ElemIndex::Wire(widx), wires, comps, generation);
        bump(generation);
        self.end = ne;
        nodes.move_node(b, by, ElemIndex::Wire(widx), wires, comps, generation);
        bump(generation);
        true
    }

    /// Takes out the nodes of wire `widx` on this wire's two ends, and
    /// starts a new pass on each end that leaves its net undefined unless
    /// something still drives it. An end with no node of `widx` (or with an
    /// ownerless node) is left alone.
    pub fn remove_nodes(
        &self,
        nodes: &mut NodeHandler,
        widx: WireKey,
        wires: &Wires,
        comps: &CompArena,
        generation: &mut u32,
    )
        requires
            old(nodes).wf(),
        ensures
            final(nodes).wf(),
            forall|k: NodeKey| #[trigger] final(nodes).slots().contains_key(k) ==> old(nodes).slots().contains_key(k),
            forall|k: NodeKey| #[trigger] old(nodes).slots().contains_key(k)
                && old(nodes).slots()[k].owner != Some(ElemIndex::Wire(widx))
                ==> final(nodes).slots().contains_key(k),
            forall|k: NodeKey| #[trigger] final(nodes).slots().contains_key(k) <==> old(nodes).slots().contains_key(k)
                && !taken(*old(nodes), self.start, ElemIndex::Wire(widx), k)
                && !taken(*old(nodes), self.end, ElemIndex::Wire(widx), k),
            forall|k: NodeKey| #[trigger] final(nodes).slots().contains_key(k) ==> {
                &&& final(nodes).slots()[k].owner == old(nodes).slots()[k].owner
                &&& final(nodes).slots()[k].pos == old(nodes).slots()[k].pos
                &&& final(nodes).slots()[k].output == old(nodes).slots()[k].output
            },
    {
        let o = ElemIndex::Wire(widx);
        remove_owned_and_settle(nodes, self.start, o, wires, comps, generation);
        let ghost h1 = *nodes;
        remove_owned_and_settle(nodes, self.end, o, wires, comps, generation);
        proof {
            let h0 = *old(nodes);
            assert forall|k: NodeKey| #[trigger] h1.slots().contains_key(k)
                implies taken(h1, self.end, o, k) == taken(h0, self.end, o, k) by {
                if taken(h1, self.end, o, k) {
                    assert forall|k2: NodeKey| #[trigger] h0.slots().contains_key(k2) && h0.slots()[k2].pos == self.end
                        implies h0.slots()[k2].owner is Some by {
                        if h1.slots().contains_key(k2) {
                            assert(h1.slots()[k2].pos == self.end);
                        } else {
                            assert(taken(h0, self.start, o, k2));
                        }
                    }
                }
                if taken(h0, self.end, o, k) {
                    assert forall|k2: NodeKey| #[trigger] h1.slots().contains_key(k2) && h1.slots()[k2].pos == self.end
                        implies h1.slots()[k2].owner is Some by {
                        assert(h0.slots().contains_key(k2));
                    }
                }
            }
            assert forall|k: NodeKey| #[trigger] old(nodes).slots().contains_key(k)
                && old(nodes).slots()[k].owner != Some(ElemIndex::Wire(widx))
                implies nodes.slots().contains_key(k) by {
                assert(h1.slots().contains_key(k));
            }
        }
    }
}

/// If `remove_node(at, owner)` applies, does it and then starts a new pass
/// at `at` that leaves the net undefined unless something still drives it.
pub fn remove_owned_and_settle(
    nodes: &mut NodeHandler,
    at: IVec2,
    owner: ElemIndex,
    wires: &Wires,
    comps: &CompArena,
    generation: &mut u32,
)
    requires
        old(nodes).wf(),
    ensures
        final(nodes).wf(),
        forall|k: NodeKey| #[trigger] final(nodes).slots().contains_key(k) <==> old(nodes).slots().contains_key(k)
            && !taken(*old(nodes), at, owner, k),
        forall|k: NodeKey| #[trigger] final(nodes).slots().contains_key(k) ==> {
            &&& final(nodes).slots()[k].owner == old(nodes).slots()[k].owner
            &&& final(nodes).slots()[k].pos == old(nodes).slots()[k].pos
            &&& final(nodes).slots()[k].output == old(nodes).slots()[k].output
        },
{
    proof {
        assert forall|k: NodeKey| #[trigger] taken(*old(nodes), at, owner, k) == (old(nodes).at(at).contains(k)
            && old(nodes).slots()[k].owner == Some(owner) && nodes_owned_at(*old(nodes), at, owner)) by {
            lemma_taken(*old(nodes), at, owner, k);
        }
    }
    if nodes.owned_at(at, owner) {
        let ghost h0 = *nodes;
        let _ = nodes.remove_node(at, owner);
        let ghost h1 = *nodes;
        set_nodes(nodes, wires, comps, at, generation, LL::U, true);
        proof {
            assert forall|k: NodeKey| #[trigger] nodes.slots().contains_key(k) <==> h1.slots().contains_key(k) by {}
            assert forall|k: NodeKey| #[trigger] nodes.slots().contains_key(k) implies {
                &&& nodes.slots()[k].owner == h0.slots()[k].owner
                &&& nodes.slots()[k].pos == h0.slots()[k].pos
                &&& nodes.slots()[k].output == h0.slots()[k].output
            } by {
                assert(h1.slots().contains_key(k));
            }
        }
    }
}

/// `remove_node(at, owner)` applies to `h`.
pub open spec fn nodes_owned_at(h: NodeHandler, at: IVec2, owner: ElemIndex) -> bool {
    &&& exists|i: int| 0 <= i < h.at(at).len() && #[trigger] h.slots()[h.at(at)[i]].owner == Some(owner)
    &&& forall|i: int| 0 <= i < h.at(at).len() ==> (#[trigger] h.slots()[h.at(at)[i]].owner) is Some
}

/// Node `k` of `h` stands on `at`, belongs to `owner`, and every node on
/// `at` has an owner: `remove_node(at, owner)` takes it out.
pub open spec fn taken(h: NodeHandler, at: IVec2, owner: ElemIndex, k: NodeKey) -> bool {
    &&& h.slots().contains_key(k)
    &&& h.slots()[k].pos == at
    &&& h.slots()[k].owner == Some(owner)
    &&& forall|k2: NodeKey| #[trigger] h.slots().contains_key(k2) && h.slots()[k2].pos == at
        ==> h.slots()[k2].owner is Some
}

/// Some point of the nodes `ks` (those of them stored in `h`) is one where
/// node `k` is taken out for `owner`.
pub open spec fn taken_by_any(h: NodeHandler, ks: Seq<NodeKey>, owner: ElemIndex, k: NodeKey) -> bool {
    exists|j: int| 0 <= j < ks.len() && h.slots().contains_key(ks[j])
        && #[trigger] taken(h, h.slots()[ks[j]].pos, owner, k)
}

/// In a well-formed handler, the nodes listed at `at` are those stored
/// there.
pub proof fn lemma_at_iff(h: NodeHandler, at: IVec2, k: NodeKey)
    requires
        h.wf(),
    ensures
        h.at(at).contains(k) <==> (h.slots().contains_key(k) && h.slots()[k].pos == at),
{
    if h.at(at).contains(k) {
        let i = choose|i: int| 0 <= i < h.at(at).len() && h.at(at)[i] == k;
        assert(h.table().contains_key(key_of(at)));
        assert(h.slots().contains_key(h.table()[key_of(at)][i]));
        lemma_key_of_injective(h.slots()[k].pos, at);
    }
    if h.slots().contains_key(k) && h.slots()[k].pos == at {
        assert(h.table()[key_of(at)].contains(k));
    }
}

/// `taken` says by the stored nodes what `remove_node`'s condition says by
/// the lookup list.
pub proof fn lemma_taken(h: NodeHandler, at: IVec2, owner: ElemIndex, k: NodeKey)
    requires
        h.wf(),
    ensures
        taken(h, at, owner, k) == (h.at(at).contains(k) && h.slots()[k].owner == Some(owner)
            && nodes_owned_at(h, at, owner)),
{
    lemma_at_iff(h, at, k);
    let s = h.at(at);
    let all_list = forall|i: int| 0 <= i < s.len() ==> (#[trigger] h.slots()[s[i]].owner) is Some;
    let all_set = forall|k2: NodeKey| #[trigger] h.slots().contains_key(k2) && h.slots()[k2].pos == at
        ==> h.slots()[k2].owner is Some;
    if all_list {
        assert forall|k2: NodeKey| #[trigger] h.slots().contains_key(k2) && h.slots()[k2].pos == at
            implies h.slots()[k2].owner is Some by {
            lemma_at_iff(h, at, k2);
            let i = choose|i: int| 0 <= i < s.len() && s[i] == k2;
            assert(h.slots()[s[i]].owner is Some);
        }
    }
    if all_set {
        assert forall|i: int| 0 <= i < s.len() implies (#[trigger] h.slots()[s[i]].owner) is Some by {
            lemma_at_iff(h, at, s[i]);
            assert(s.contains(s[i]));
        }
    }
    assert(all_list == all_set);
    if s.contains(k) && h.slots()[k].owner == Some(owner) {
        let i = choose|i: int| 0 <= i < s.len() && s[i] == k;
        assert(h.slots()[s[i]].owner == Some(owner));
    }
}

/// Whether a wire touches a point does not depend on which way it runs.
pub proof fn lemma_touches_symmetric(s: IVec2, e: IVec2, p: IVec2)
    ensures
        spec_touches(s, e, p) == spec_touches(e, s, p),
{
    let vx = e.x - s.x;
    let vy = e.y - s.y;
    let wx = p.x - s.x;
    let wy = p.y - s.y;
    let ux = p.x - e.x;
    let uy = p.y - e.y;
    assert((-vx) * uy - (-vy) * ux == -(vx * wy - vy * wx)) by (nonlinear_arith)
        requires ux == wx - vx, uy == wy - vy;
    assert(ux * (-vx) + uy * (-vy) == (vx * vx + vy * vy) - (wx * vx + wy * vy)) by (nonlinear_arith)
        requires ux == wx - vx, uy == wy - vy;
    assert((-vx) * (-vx) + (-vy) * (-vy) == vx * vx + vy * vy) by (nonlinear_arith);
}

/// The two legs of a wire drawn from `from` to `to` along the grid: first
/// across then up or down (`horiz`), or the other way round; and whether
/// the next drag starts across. When the first leg would have no length,
/// the direction flips.
pub open spec fn spec_route(from: IVec2, to: IVec2, horiz: bool) -> (Wire, Wire, bool) {
    if horiz {
        let corner = IVec2 { x: to.x, y: from.y };
        (Wire::skeleton_spec(from, corner), Wire::skeleton_spec(corner, to), if to.x == from.x { !horiz } else { horiz })
    } else {
        let corner = IVec2 { x: from.x, y: to.y };
        (Wire::skeleton_spec(from, corner), Wire::skeleton_spec(corner, to), if to.y == from.y { !horiz } else { horiz })
    }
}

/// A drawn wire runs from `from` to `to` in two legs joined at a corner,
/// each leg along one axis: the first along x when `horiz`, along y
/// otherwise; the direction flips when the first leg has no length.
pub proof fn lemma_route(from: IVec2, to: IVec2, horiz: bool)
    ensures
        spec_route(from, to, horiz).0.start == from,
        spec_route(from, to, horiz).1.end == to,
        spec_route(from, to, horiz).0.end == spec_route(from, to, horiz).1.start,
        horiz ==> spec_route(from, to, horiz).0.start.y == spec_route(from, to, horiz).0.end.y
            && spec_route(from, to, horiz).1.start.x == spec_route(from, to, horiz).1.end.x,
        !horiz ==> spec_route(from, to, horiz).0.start.x == spec_route(from, to, horiz).0.end.x
            && spec_route(from, to, horiz).1.start.y == spec_route(from, to, horiz).1.end.y,
        spec_route(from, to, horiz).2 == (if spec_route(from, to, horiz).0.start == spec_route(from, to, horiz).0.end { !horiz } else { horiz }),
{
}

/// The two legs of a wire drawn from `from` to `to` (see `spec_route`).
pub fn route(from: IVec2, to: IVec2, horiz: bool) -> (r: (Wire, Wire, bool))
    ensures
        r == spec_route(from, to, horiz),
{
    if horiz {
        let corner = IVec2 { x: to.x, y: from.y };
        (Wire::skeleton(from, corner), Wire::skeleton(corner, to), if to.x == from.x { !horiz } else { horiz })
    } else {
        let corner = IVec2 { x: from.x, y: to.y };
        (Wire::skeleton(from, corner), Wire::skeleton(corner, to), if to.y == from.y { !horiz } else { horiz })
    }
}

/// The legs of a drawn wire that are added when the drag ends: none while
/// it goes on, and once it has ended each leg that is longer than a point.
pub fn finished_legs(w1: Wire, w2: Wire, ended: bool) -> (r: (Option<Wire>, Option<Wire>))
    ensures
        r.0 == (if ended && w1.start != w1.end { Some(w1) } else { None }),
        r.1 == (if ended && w2.start != w2.end { Some(w2) } else { None }),
{
    let a = if ended && w1.start != w1.end { Some(w1) } else { None };
    let b = if ended && w2.start != w2.end { Some(w2) } else { None };
    (a, b)
}

/// The wire `w` meets the segment from `from` to `to`: they share an end,
/// or an end of one lies inside the other.
pub open spec fn meets(w: Wire, from: IVec2, to: IVec2) -> bool {
    ||| spec_touches(w.start, w.end, from)
    ||| spec_touches(w.start, w.end, to)
    ||| spec_touches(from, to, w.start)
    ||| spec_touches(from, to, w.end)
    ||| w.start == from || w.start == to || w.end == from || w.end == to
}

/// A wire meets a segment whichever way the segment runs.
pub proof fn lemma_meets_symmetric(w: Wire, from: IVec2, to: IVec2)
    ensures
        meets(w, from, to) == meets(w, to, from),
{
    lemma_touches_symmetric(from, to, w.start);
    lemma_touches_symmetric(from, to, w.end);
}

/// The segments from `a` to `b` and from `c` to `d` are not parallel.
#[verifier::opaque]
pub open spec fn skew(a: IVec2, b: IVec2, c: IVec2, d: IVec2) -> bool {
    (a.x - b.x) * (c.y - d.y) - (a.y - b.y) * (c.x - d.x) != 0
}

/// The segment from `from` to `to` forms a T-junction with wire `k0` of
/// `ws`: its start lies strictly inside that wire, its end does not, the
/// two are not parallel and neither covers the other, and no other wire
/// meets the segment.
#[verifier::opaque]
pub open spec fn t_junction(ws: Map<WireKey, Wire>, from: IVec2, to: IVec2, k0: WireKey) -> bool {
    let o = ws[k0];
    &&& ws.contains_key(k0)
    &&& spec_touches(o.start, o.end, from)
    &&& !spec_touches(o.start, o.end, to)
    &&& !(spec_touches(from, to, o.start) && spec_touches(from, to, o.end))
    &&& skew(o.start, o.end, from, to)
    &&& forall|k: WireKey| #[trigger] ws.contains_key(k) && k != k0 ==> !meets(ws[k], from, to)
}

/// The segment from `from` to `to` lies strictly inside wire `k0` of `ws`
/// (both its ends are inner points of that wire), and no other wire meets
/// it.
#[verifier::opaque]
pub open spec fn covered_by(ws: Map<WireKey, Wire>, from: IVec2, to: IVec2, k0: WireKey) -> bool {
    &&& ws.contains_key(k0)
    &&& spec_touches(ws[k0].start, ws[k0].end, from)
    &&& spec_touches(ws[k0].start, ws[k0].end, to)
    &&& forall|k: WireKey| #[trigger] ws.contains_key(k) && k != k0 ==> !meets(ws[k], from, to)
}

/// Wire `k0` of `ws` lies strictly inside the segment from `from` to `to`
/// (and does not cover it), one of its ends holds two nodes or more in
/// `nodes`, and no wire of a lower slot meets the segment: adding the
/// segment gives up there.
#[verifier::opaque]
pub open spec fn blocked_by(ws: Map<WireKey, Wire>, nodes: NodeHandler, from: IVec2, to: IVec2, k0: WireKey) -> bool {
    &&& ws.contains_key(k0)
    &&& spec_touches(from, to, ws[k0].start)
    &&& spec_touches(from, to, ws[k0].end)
    &&& !(spec_touches(ws[k0].start, ws[k0].end, from) && spec_touches(ws[k0].start, ws[k0].end, to))
    &&& nodes.at(ws[k0].start).len() >= 2 || nodes.at(ws[k0].end).len() >= 2
    &&& forall|k: WireKey| #[trigger] ws.contains_key(k) && k.slot < k0.slot ==> !meets(ws[k], from, to)
}

/// What a give-up at wire `k0` says of wire `k` of `ws`.
#[verifier::spinoff_prover]
pub proof fn lemma_blocked_by(ws: Map<WireKey, Wire>, nodes: NodeHandler, from: IVec2, to: IVec2, k0: WireKey, k: WireKey)
    requires
        blocked_by(ws, nodes, from, to, k0),
    ensures
        ws.contains_key(k0),
        spec_touches(from, to, ws[k0].start),
        spec_touches(from, to, ws[k0].end),
        !(spec_touches(ws[k0].start, ws[k0].end, from) && spec_touches(ws[k0].start, ws[k0].end, to)),
        nodes.at(ws[k0].start).len() >= 2 || nodes.at(ws[k0].end).len() >= 2,
        ws.contains_key(k) && k.slot < k0.slot ==> !meets(ws[k], from, to),
{
    reveal(blocked_by);
}

/// What coverage by wire `k0` says of wire `k` of `ws`.
#[verifier::spinoff_prover]
pub proof fn lemma_covered_by(ws: Map<WireKey, Wire>, from: IVec2, to: IVec2, k0: WireKey, k: WireKey)
    requires
        covered_by(ws, from, to, k0),
    ensures
        ws.contains_key(k0),
        spec_touches(ws[k0].start, ws[k0].end, from),
        spec_touches(ws[k0].start, ws[k0].end, to),
        ws.contains_key(k) && k != k0 ==> !meets(ws[k], from, to),
{
    reveal(covered_by);
}

/// What a T-junction with wire `k0` says of wire `k` of `ws`.
#[verifier::spinoff_prover]
#[verifier::rlimit(3)]
pub proof fn lemma_t_junction(ws: Map<WireKey, Wire>, from: IVec2, to: IVec2, k0: WireKey, k: WireKey)
    requires
        t_junction(ws, from, to, k0),
    ensures
        ws.contains_key(k0),
        spec_touches(ws[k0].start, ws[k0].end, from),
        !spec_touches(ws[k0].start, ws[k0].end, to),
        !(spec_touches(from, to, ws[k0].start) && spec_touches(from, to, ws[k0].end)),
        skew(ws[k0].start, ws[k0].end, from, to),
        ws.contains_key(k) && k != k0 ==> !meets(ws[k], from, to),
{
    reveal(t_junction);
}

/// The outcome of a T-junction with wire `k0`, from `ws0` to `ws1`: that
/// wire is cut at the junction (it now ends there), its far part is the
/// new wire `w2`, and the segment itself is the new wire `w3`; every other
/// wire stays as it was.
pub open spec fn junction_outcome(
    ws0: Map<WireKey, Wire>,
    ws1: Map<WireKey, Wire>,
    from: IVec2,
    to: IVec2,
    k0: WireKey,
    w2: WireKey,
    w3: WireKey,
) -> bool {
    &&& !ws0.contains_key(w2) && !ws0.contains_key(w3) && w2 != w3
    &&& ws1.dom() == ws0.dom().insert(w2).insert(w3)
    &&& ws1[k0] == (Wire { end: from, ..ws0[k0] })
    &&& ws1[w2].start == from && ws1[w2].end == ws0[k0].end
    &&& ws1[w3].start == from && ws1[w3].end == to
    &&& forall|k: WireKey| #[trigger] ws0.contains_key(k) && k != k0 ==> ws1[k] == ws0[k]
}

/// The outcome of a T-junction at the end `to` of the new wire with wire
/// `k0`, from `ws0` to `ws1`: that wire is cut at `to` (it now ends there),
/// its far part is the new wire `w2`, and the new wire from `from` to `to`
/// is `w3`; every other wire stays as it was.
pub open spec fn junction_outcome_end(
    ws0: Map<WireKey, Wire>,
    ws1: Map<WireKey, Wire>,
    from: IVec2,
    to: IVec2,
    k0: WireKey,
    w2: WireKey,
    w3: WireKey,
) -> bool {
    &&& !ws0.contains_key(w2) && !ws0.contains_key(w3) && w2 != w3
    &&& ws1.dom() == ws0.dom().insert(w2).insert(w3)
    &&& ws1[k0] == (Wire { end: to, ..ws0[k0] })
    &&& ws1[w2].start == to && ws1[w2].end == ws0[k0].end
    &&& ws1[w3].start == from && ws1[w3].end == to
    &&& forall|k: WireKey| #[trigger] ws0.contains_key(k) && k != k0 ==> ws1[k] == ws0[k]
}

/// All the wires.
pub struct Wires {
    pub wires: WireArena,
}

impl Wires {
    /// The wires, by key.
    pub open spec fn slots(&self) -> Map<WireKey, Wire> {
        wire_slots(self.wires)
    }

    /// Every wire's ends are admissible points, and every key has a
    /// nonzero generation.
    pub open spec fn in_range(&self) -> bool {
        &&& self.slots().dom().finite()
        &&& forall|k: WireKey| #[trigger] self.slots().contains_key(k)
            ==> self.slots()[k].start.in_range() && self.slots()[k].end.in_range() && k.gen > 0
    }

    /// Adds the wire `new` (its ends, not its nodes), tidying as it goes:
    /// nothing is added if an existing wire covers it; an existing wire
    /// lying inside it is stretched to it (unless that wire has other
    /// connections, in which case nothing is done at all); a parallel wire
    /// sharing an end with a single node on it, or overlapping it, is
    /// merged with it; a crossing wire with an end of the new wire inside
    /// it is cut there (the first cut at each end), and its far part is
    /// added as a wire of its own. After each stretch or merge the check
    /// starts over; it gives up after one start-over per wire (plus two),
    /// and then does not add the new wire. A wire that meets no existing
    /// wire is added as it is.
    /// A stretch or merge needs the old wire's nodes on its ends and is
    /// skipped otherwise.
    #[verifier::spinoff_prover]
    #[verifier::rlimit(15)]
    pub fn try_add(&mut self, new: Wire, nodes: &mut NodeHandler)
        requires
            old(self).in_range(),
            old(nodes).wf(),
            new.start.in_range(),
            new.end.in_range(),
        ensures
            final(self).in_range(),
            final(nodes).wf(),
            old(self).slots().dom().subset_of(final(self).slots().dom()),
            (forall|k: WireKey| #[trigger] old(self).slots().contains_key(k) ==> !meets(old(self).slots()[k], new.start, new.end))
                ==> exists|w: WireKey| {
                    &&& !old(self).slots().contains_key(w)
                    &&& #[trigger] final(self).slots().dom() == old(self).slots().dom().insert(w)
                    &&& final(self).slots()[w].start == new.start
                    &&& final(self).slots()[w].end == new.end
                    &&& forall|k: WireKey| old(self).slots().contains_key(k) ==> final(self).slots()[k] == old(self).slots()[k]
                },
            forall|k0: WireKey| #[trigger] t_junction(old(self).slots(), new.start, new.end, k0)
                ==> exists|w2: WireKey, w3: WireKey| junction_outcome(old(self).slots(), final(self).slots(), new.start, new.end, k0, w2, w3),
            forall|k0: WireKey| #[trigger] t_junction(old(self).slots(), new.end, new.start, k0)
                ==> exists|w2: WireKey, w3: WireKey| junction_outcome_end(old(self).slots(), final(self).slots(), new.start, new.end, k0, w2, w3),
            (exists|k0: WireKey| #[trigger] covered_by(old(self).slots(), new.start, new.end, k0))
                ==> final(self).slots() == old(self).slots() && *final(nodes) == *old(nodes),
            (exists|k0: WireKey| #[trigger] blocked_by(old(self).slots(), *old(nodes), new.start, new.end, k0))
                ==> final(self).slots() == old(self).slots() && *final(nodes) == *old(nodes),
    {
        let ghost kb = choose|k: WireKey| blocked_by(old(self).slots(), *old(nodes), new.start, new.end, k);
        let ghost bl = blocked_by(old(self).slots(), *old(nodes), new.start, new.end, kb);
        let ghost kc = choose|k: WireKey| covered_by(old(self).slots(), new.start, new.end, k);
        let ghost cv = covered_by(old(self).slots(), new.start, new.end, kc);
        let ghost k0 = choose|k: WireKey| t_junction(old(self).slots(), new.start, new.end, k);
        let ghost tj = t_junction(old(self).slots(), new.start, new.end, k0);
        let ghost cut = Wire { end: new.start, ..old(self).slots()[k0] };
        let ghost far = Wire::skeleton_spec(new.start, old(self).slots()[k0].end);
        let ghost ke = choose|k: WireKey| t_junction(old(self).slots(), new.end, new.start, k);
        let ghost te = t_junction(old(self).slots(), new.end, new.start, ke);
        let ghost cute = Wire { end: new.end, ..old(self).slots()[ke] };
        let ghost fare = Wire::skeleton_spec(new.end, old(self).slots()[ke].end);
        proof {
            assert forall|k1: WireKey| #[trigger] t_junction(old(self).slots(), new.end, new.start, k1) implies te by {}
            assert forall|k1: WireKey| #[trigger] t_junction(old(self).slots(), new.start, new.end, k1) implies tj by {}
            assert forall|k1: WireKey| #[trigger] covered_by(old(self).slots(), new.start, new.end, k1) implies cv by {}
            assert forall|k1: WireKey| #[trigger] blocked_by(old(self).slots(), *old(nodes), new.start, new.end, k1) implies bl by {}
        }
        let mut runanother = true;
        let mut insert = true;
        let mut secondwire: Option<Wire> = None;
        let mut thirdwire: Option<Wire> = None;
        let limit = self.wires.len();
        let limit: usize = if limit < usize::MAX - 2 { limit + 2 } else { limit };
        let mut passes: usize = 0;
        while runanother && passes < limit
            invariant
                self.in_range(),
                nodes.wf(),
                new.start.in_range(),
                new.end.in_range(),
                old(self).slots().dom().subset_of(self.slots().dom()),
                secondwire matches Some(s) ==> s.start.in_range() && s.end.in_range(),
                thirdwire matches Some(s) ==> s.start.in_range() && s.end.in_range(),
                (forall|k: WireKey| #[trigger] old(self).slots().contains_key(k) ==> !meets(old(self).slots()[k], new.start, new.end))
                    ==> insert && self.slots() == old(self).slots() && secondwire is None && thirdwire is None
                        && (passes > 0 ==> !runanother),
                limit >= 1,
                tj == t_junction(old(self).slots(), new.start, new.end, k0),
                !tj ==> forall|k1: WireKey| !#[trigger] t_junction(old(self).slots(), new.start, new.end, k1),
                cv == covered_by(old(self).slots(), new.start, new.end, kc),
                !cv ==> forall|k1: WireKey| !#[trigger] covered_by(old(self).slots(), new.start, new.end, k1),
                bl == blocked_by(old(self).slots(), *old(nodes), new.start, new.end, kb),
                !bl ==> forall|k1: WireKey| !#[trigger] blocked_by(old(self).slots(), *old(nodes), new.start, new.end, k1),
                bl ==> passes == 0 && runanother && insert && self.slots() == old(self).slots() && *nodes == *old(nodes),
                cv ==> self.slots() == old(self).slots() && *nodes == *old(nodes) && secondwire is None && thirdwire is None
                    && ((passes == 0 && runanother && insert) || (!insert && !runanother)),
                cut == (Wire { end: new.start, ..old(self).slots()[k0] }),
                far == Wire::skeleton_spec(new.start, old(self).slots()[k0].end),
                tj ==> insert && thirdwire is None && (
                    (passes == 0 && runanother && secondwire is None && self.slots() == old(self).slots())
                    || (passes > 0 && !runanother && secondwire == Some(far) && self.slots() == old(self).slots().insert(k0, cut))),
                te == t_junction(old(self).slots(), new.end, new.start, ke),
                !te ==> forall|k1: WireKey| !#[trigger] t_junction(old(self).slots(), new.end, new.start, k1),
                cute == (Wire { end: new.end, ..old(self).slots()[ke] }),
                fare == Wire::skeleton_spec(new.end, old(self).slots()[ke].end),
                te ==> insert && secondwire is None && (
                    (passes == 0 && runanother && thirdwire is None && self.slots() == old(self).slots())
                    || (passes > 0 && !runanother && thirdwire == Some(fare) && self.slots() == old(self).slots().insert(ke, cute))),
            ensures
                (forall|k: WireKey| #[trigger] old(self).slots().contains_key(k) ==> !meets(old(self).slots()[k], new.start, new.end))
                    ==> insert && self.slots() == old(self).slots() && secondwire is None && thirdwire is None && !runanother,
                tj ==> insert && !runanother && thirdwire is None && secondwire == Some(far)
                    && self.slots() == old(self).slots().insert(k0, cut),
                te ==> insert && !runanother && secondwire is None && thirdwire == Some(fare)
                    && self.slots() == old(self).slots().insert(ke, cute),
                cv ==> !insert && self.slots() == old(self).slots() && *nodes == *old(nodes) && secondwire is None && thirdwire is None,
                !bl,
            decreases limit - passes,
        {
            runanother = false;
            passes = passes + 1;
            let keys = self.wires.keys();
            let ghost j0: int = choose|j: int| 0 <= j < keys@.len() && keys@[j] == k0;
            let ghost je: int = choose|j: int| 0 <= j < keys@.len() && keys@[j] == ke;
            let ghost jc: int = choose|j: int| 0 <= j < keys@.len() && keys@[j] == kc;
            let ghost jb: int = choose|j: int| 0 <= j < keys@.len() && keys@[j] == kb;
            proof {
                if bl {
                    lemma_blocked_by(old(self).slots(), *old(nodes), new.start, new.end, kb, kb);
                    assert(keys@.to_set().contains(kb));
                    assert(keys@.contains(kb));
                }
                if cv {
                    lemma_covered_by(old(self).slots(), new.start, new.end, kc, kc);
                    assert(keys@.to_set().contains(kc));
                    assert(keys@.contains(kc));
                }
                if tj {
                    lemma_t_junction(old(self).slots(), new.start, new.end, k0, k0);
                    assert(keys@.to_set().contains(k0));
                    assert(keys@.contains(k0));
                }
                if te {
                    lemma_t_junction(old(self).slots(), new.end, new.start, ke, ke);
                    assert(keys@.to_set().contains(ke));
                    assert(keys@.contains(ke));
                }
            }
            let mut i: usize = 0;
            while i < keys.len()
                invariant
                    te == t_junction(old(self).slots(), new.end, new.start, ke),
                    !te ==> forall|k1: WireKey| !#[trigger] t_junction(old(self).slots(), new.end, new.start, k1),
                    cute == (Wire { end: new.end, ..old(self).slots()[ke] }),
                    fare == Wire::skeleton_spec(new.end, old(self).slots()[ke].end),
                    te ==> wire_keys_listed(keys@, old(self).slots()),
                    te ==> 0 <= je < keys@.len() && keys@[je] == ke,
                    te ==> insert && !runanother && secondwire is None
                        && (i <= je ==> thirdwire is None && self.slots() == old(self).slots())
                        && (i > je ==> thirdwire == Some(fare) && self.slots() == old(self).slots().insert(ke, cute)),
                    tj == t_junction(old(self).slots(), new.start, new.end, k0),
                    !tj ==> forall|k1: WireKey| !#[trigger] t_junction(old(self).slots(), new.start, new.end, k1),
                    cut == (Wire { end: new.start, ..old(self).slots()[k0] }),
                    far == Wire::skeleton_spec(new.start, old(self).slots()[k0].end),
                    tj ==> wire_keys_listed(keys@, old(self).slots()),
                    cv == covered_by(old(self).slots(), new.start, new.end, kc),
                    !cv ==> forall|k1: WireKey| !#[trigger] covered_by(old(self).slots(), new.start, new.end, k1),
                    cv ==> wire_keys_listed(keys@, old(self).slots()),
                    bl == blocked_by(old(self).slots(), *old(nodes), new.start, new.end, kb),
                    !bl ==> forall|k1: WireKey| !#[trigger] blocked_by(old(self).slots(), *old(nodes), new.start, new.end, k1),
                    bl ==> wire_keys_listed(keys@, old(self).slots()),
                    bl ==> 0 <= jb < keys@.len() && keys@[jb] == kb,
                    bl ==> i <= jb && self.slots() == old(self).slots() && *nodes == *old(nodes) && insert && !runanother,
                    cv ==> 0 <= jc < keys@.len() && keys@[jc] == kc,
                    cv ==> self.slots() == old(self).slots() && *nodes == *old(nodes) && secondwire is None && thirdwire is None
                        && !runanother && (insert <==> i <= jc),
                    tj ==> 0 <= j0 < keys@.len() && keys@[j0] == k0,
                    tj ==> insert && !runanother && thirdwire is None
                        && (i <= j0 ==> secondwire is None && self.slots() == old(self).slots())
                        && (i > j0 ==> secondwire == Some(far) && self.slots() == old(self).slots().insert(k0, cut)),
                    self.in_range(),
                    nodes.wf(),
                    new.start.in_range(),
                    new.end.in_range(),
                    old(self).slots().dom().subset_of(self.slots().dom()),
                    secondwire matches Some(s) ==> s.start.in_range() && s.end.in_range(),
                    thirdwire matches Some(s) ==> s.start.in_range() && s.end.in_range(),
                    (forall|k: WireKey| #[trigger] old(self).slots().contains_key(k) ==> !meets(old(self).slots()[k], new.start, new.end))
                        ==> insert && self.slots() == old(self).slots() && secondwire is None && thirdwire is None
                            && !runanother,
                    passes > 0,
                ensures
                    tj ==> i > j0,
                    te ==> i > je,
                    cv ==> !insert,
                    !bl,
                decreases keys@.len() - i,
            {
                let oldidx = keys[i];
                proof {
                    if tj {
                        lemma_t_junction(old(self).slots(), new.start, new.end, k0, oldidx);
                        reveal(skew);
                        assert(keys@[i as int] == oldidx);
                        assert(i as int != j0 ==> oldidx != k0);
                    }
                    if te {
                        lemma_t_junction(old(self).slots(), new.end, new.start, ke, oldidx);
                        if old(self).slots().contains_key(oldidx) {
                            lemma_meets_symmetric(old(self).slots()[oldidx], new.start, new.end);
                        }
                        lemma_touches_symmetric(new.start, new.end, old(self).slots()[ke].start);
                        lemma_touches_symmetric(new.start, new.end, old(self).slots()[ke].end);
                        reveal(skew);
                        assert(keys@[i as int] == oldidx);
                        assert(i as int != je ==> oldidx != ke);
                        let o = old(self).slots()[ke];
                        assert((o.start.x - o.end.x) * (new.start.y - new.end.y) - (o.start.y - o.end.y) * (new.start.x - new.end.x)
                            == -((o.start.x - o.end.x) * (new.end.y - new.start.y) - (o.start.y - o.end.y) * (new.end.x - new.start.x)))
                            by (nonlinear_arith);
                    }
                    if cv {
                        lemma_covered_by(old(self).slots(), new.start, new.end, kc, oldidx);
                        assert(keys@[i as int] == oldidx);
                        assert(i as int != jc ==> oldidx != kc);
                    }
                    if bl {
                        lemma_blocked_by(old(self).slots(), *old(nodes), new.start, new.end, kb, oldidx);
                        assert(keys@[i as int] == oldidx);
                        assert(i as int != jb ==> oldidx.slot < kb.slot);
                    }
                }
                i = i + 1;
                let mut ow = match self.wires.get(oldidx) {
                    Some(w) => *w,
                    None => {
                        continue;
                    },
                };
                let parallel = cross(ow.start.minus(ow.end), new.start.minus(new.end)) == 0;
                if ow.touches(new.start) && ow.touches(new.end) {
                    insert = false;
                    break;
                }
                let mut target: Option<(IVec2, IVec2)> = None;
                if new.touches(ow.start) && new.touches(ow.end) {
                    if nodes.count_nodes(ow.start) >= 2 || nodes.count_nodes(ow.end) >= 2 {
                        return;
                    }
                    target = Some((new.start, new.end));
                } else if parallel {
                    if nodes.count_nodes(ow.start) == 1 && ow.start == new.start {
                        target = Some((new.end, ow.end));
                    } else if nodes.count_nodes(ow.start) == 1 && ow.start == new.end {
                        target = Some((ow.end, new.start));
                    } else if nodes.count_nodes(ow.start) == 1 && ow.end == new.start {
                        target = Some((ow.start, new.end));
                    } else if nodes.count_nodes(ow.start) == 1 && ow.end == new.end {
                        target = Some((ow.start, new.start));
                    } else if ow.touches(new.start) {
                        if new.touches(ow.start) {
                            target = Some((ow.end, new.end));
                        } else if new.touches(ow.end) {
                            target = Some((ow.start, new.end));
                        }
                    } else if ow.touches(new.end) {
                        if new.touches(ow.start) {
                            target = Some((ow.end, new.start));
                        } else if new.touches(ow.end) {
                            target = Some((ow.start, new.start));
                        }
                    }
                } else {
                    if ow.touches(new.start) && ow.start != new.start && ow.end != new.start {
                        if secondwire.is_none() {
                            secondwire = Some(ow.split(new.start));
                            *self.wires.get_mut(oldidx) = ow;
                        }
                    } else if ow.touches(new.end) && ow.start != new.end && ow.end != new.end {
                        if thirdwire.is_none() {
                            thirdwire = Some(ow.split(new.end));
                            *self.wires.get_mut(oldidx) = ow;
                        }
                    }
                }
                match target {
                    Some((s, e)) => {
                        if ow.start != ow.end && nodes.owned_at(ow.start, ElemIndex::Wire(oldidx))
                            && nodes.owned_at(ow.end, ElemIndex::Wire(oldidx)) {
                            ow.overwrite(s, e, nodes, oldidx);
                            *self.wires.get_mut(oldidx) = ow;
                            runanother = true;
                            break;
                        }
                    },
                    None => {},
                }
            }
            if !insert {
                break;
            }
        }
        let ghost s1 = self.slots();
        let ghost mut w2 = k0;
        match secondwire {
            Some(w) => {
                let k = self.add(w.start, w.end, nodes);
                proof { w2 = k; }
            },
            None => {},
        }
        let ghost s2 = self.slots();
        let ghost mut w2e = ke;
        match thirdwire {
            Some(w) => {
                let k = self.add(w.start, w.end, nodes);
                proof { w2e = k; }
            },
            None => {},
        }
        let ghost s3 = self.slots();
        let ghost mut w3 = k0;
        if insert && !runanother {
            let k = self.add(new.start, new.end, nodes);
            proof { w3 = k; }
        }
        proof {
            assert forall|k1: WireKey| #[trigger] t_junction(old(self).slots(), new.start, new.end, k1) implies k1 == k0 && tj by {
                lemma_t_junction(old(self).slots(), new.start, new.end, k1, k0);
                if k1 != k0 {
                    assert(t_junction(old(self).slots(), new.start, new.end, k0));
                    lemma_t_junction(old(self).slots(), new.start, new.end, k0, k0);
                    assert(meets(old(self).slots()[k0], new.start, new.end));
                }
            }
            if tj {
                lemma_t_junction(old(self).slots(), new.start, new.end, k0, k0);
                assert(s1 == old(self).slots().insert(k0, cut));
                assert(s1.dom() == old(self).slots().dom());
                assert(!s1.contains_key(w2));
                assert(s2.contains_key(w2));
                assert(s2[w2].start == new.start && s2[w2].end == old(self).slots()[k0].end);
                assert(s2[k0] == cut);
                assert(!s2.contains_key(w3));
                assert(self.slots()[w3].start == new.start && self.slots()[w3].end == new.end);
                assert(s2.contains_key(k0));
                assert(self.slots()[w2] == s2[w2]);
                assert(self.slots()[k0] == s2[k0]);
                assert forall|k: WireKey| #[trigger] old(self).slots().contains_key(k) && k != k0
                    implies self.slots()[k] == old(self).slots()[k] by {
                    assert(s1.contains_key(k));
                    assert(s2.contains_key(k));
                }
                assert(self.slots().dom() == old(self).slots().dom().insert(w2).insert(w3));
                assert(junction_outcome(old(self).slots(), self.slots(), new.start, new.end, k0, w2, w3));
            }
            assert forall|k1: WireKey| #[trigger] t_junction(old(self).slots(), new.end, new.start, k1) implies k1 == ke && te by {
                lemma_t_junction(old(self).slots(), new.end, new.start, k1, ke);
                if k1 != ke {
                    assert(t_junction(old(self).slots(), new.end, new.start, ke));
                    lemma_t_junction(old(self).slots(), new.end, new.start, ke, ke);
                    assert(meets(old(self).slots()[ke], new.end, new.start));
                }
            }
            if te {
                lemma_t_junction(old(self).slots(), new.end, new.start, ke, ke);
                assert(s1 == old(self).slots().insert(ke, cute));
                assert(s2 == s1);
                assert(s1.dom() == old(self).slots().dom());
                assert(!s2.contains_key(w2e));
                assert(s3.contains_key(w2e));
                assert(s3[w2e].start == new.end && s3[w2e].end == old(self).slots()[ke].end);
                assert(s2.contains_key(ke));
                assert(s3[ke] == cute);
                assert(!s3.contains_key(w3));
                assert(self.slots()[w3].start == new.start && self.slots()[w3].end == new.end);
                assert(s3.contains_key(ke));
                assert(self.slots()[w2e] == s3[w2e]);
                assert(self.slots()[ke] == s3[ke]);
                assert forall|k: WireKey| #[trigger] old(self).slots().contains_key(k) && k != ke
                    implies self.slots()[k] == old(self).slots()[k] by {
                    assert(s2.contains_key(k));
                    assert(s3.contains_key(k));
                }
                assert(self.slots().dom() == old(self).slots().dom().insert(w2e).insert(w3));
                assert(junction_outcome_end(old(self).slots(), self.slots(), new.start, new.end, ke, w2e, w3));
            }
        }
    }

    /// No wires.
    pub fn new() -> (w: Wires)
        ensures
            w.slots().is_empty(),
    {
        Wires { wires: WireArena::new() }
    }

    /// Stores a wire from `start` to `end` with a node on each end. Both
    /// nodes take the level of the first node on `start`, or if that is
    /// undefined, of the first node on `end` (see `query_node`, `merge`).
    pub fn add(&mut self, start: IVec2, end: IVec2, nodes: &mut NodeHandler) -> (wire: WireKey)
        requires
            old(nodes).wf(),
            start.in_range(),
            end.in_range(),
        ensures
            final(nodes).wf(),
            !old(self).slots().contains_key(wire),
            final(nodes).slots().dom().len() == old(nodes).slots().dom().len() + 2,
            ({
                let w = final(self).slots()[wire];
                &&& w.start == start && w.end == end && !w.selected
                &&& w.startnode matches Some(a)
                &&& w.endnode matches Some(b)
                &&& a != b
                &&& !old(nodes).slots().contains_key(a) && !old(nodes).slots().contains_key(b)
                &&& final(nodes).slots().contains_key(a) && final(nodes).slots().contains_key(b)
                &&& final(nodes).slots()[a].pos == start && final(nodes).slots()[b].pos == end
                &&& final(nodes).slots()[a].owner == Some(ElemIndex::Wire(wire))
                &&& final(nodes).slots()[b].owner == Some(ElemIndex::Wire(wire))
                &&& final(nodes).slots()[b].logic_lvl == spec_merge(old(nodes).level_at(start), old(nodes).level_at(end))
                &&& start != end ==> final(nodes).slots()[a].logic_lvl
                    == spec_merge(old(nodes).level_at(start), old(nodes).level_at(end))
            }),
            final(self).slots().dom() == old(self).slots().dom().insert(wire),
            forall|o: WireKey| #[trigger] old(self).slots().contains_key(o) ==> o.slot != wire.slot,
            wire.gen > 0,
            forall|k: WireKey| #[trigger] old(self).slots().contains_key(k) ==> final(self).slots()[k] == old(self).slots()[k],
    {
        let wire = self.wires.insert(Wire::skeleton(start, end));
        assert(wire.gen > 0);
        let mut ll1 = nodes.query_node(start);
        let _ = ll1.merge(nodes.query_node(end));
        let a = nodes.add_node(Node { pos: start, owner: Some(ElemIndex::Wire(wire)), logic_lvl: ll1, generation: 0, output: false });
        let ghost h1 = *nodes;
        let b = nodes.add_node(Node { pos: end, owner: Some(ElemIndex::Wire(wire)), logic_lvl: ll1, generation: 0, output: false });
        proof {
            assert(h1.slots().contains_key(a));
            assert(nodes.slots()[a].pos == h1.slots()[a].pos);
            assert(nodes.slots()[a].owner == h1.slots()[a].owner);
            assert(h1.slots().dom().finite());
        }
        {
            let wm = self.wires.get_mut(wire);
            wm.startnode = Some(a);
            wm.endnode = Some(b);
        }
        proof {
            assert(self.slots().dom() =~= old(self).slots().dom().insert(wire));
        }
        wire
    }
}

} // verus!
