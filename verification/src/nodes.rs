//! Nodes: the connection points of wires and components.
use vstd::prelude::*;
use std::collections::HashMap;
use crate::arena::{NodeKey, WireKey, CompKey, NodeArena, CompArena, node_slots, wire_slots, comp_slots};
use crate::wires::{Wire, Wires};
use crate::component::{Component, CompKind};
use crate::geometry::{IVec2, key_of, lemma_key_of_injective, mk, vadd, pair_in_range};
use crate::logic::{LL, conflicts, spec_merge};

verus! {

broadcast use vstd::std_specs::hash::group_hash_axioms;

/// What a node belongs to.
#[derive(PartialEq, Eq, Structural, Debug, Clone, Copy)]
pub enum ElemIndex {
    Wire(WireKey),
    Comp(CompKey),
}

/// A connection point on the grid.
#[derive(PartialEq, Eq, Structural, Debug, Clone, Copy)]
pub struct Node {
    pub pos: IVec2,
    pub owner: Option<ElemIndex>,
    pub logic_lvl: LL,
    /// The propagation pass that last visited this node.
    pub generation: u32,
    /// Whether this node drives its net (a component output).
    pub output: bool,
}


/// `n` with its level replaced by `l`.
pub open spec fn relevel(n: Node, l: LL) -> Node {
    Node { logic_lvl: l, ..n }
}

/// The keys of the nodes that the pass numbered `g` has not visited.
pub open spec fn unmarked(s: Map<NodeKey, Node>, g: u32) -> Set<NodeKey> {
    s.dom().filter(|k: NodeKey| s[k].generation != g)
}

/// Same keys, and every node keeps its position, owner and kind.
pub open spec fn same_layout(s1: Map<NodeKey, Node>, s2: Map<NodeKey, Node>) -> bool {
    &&& s1.dom() == s2.dom()
    &&& forall|k: NodeKey| #[trigger] s1.contains_key(k) ==> {
        &&& s2[k].pos == s1[k].pos
        &&& s2[k].owner == s1[k].owner
        &&& s2[k].output == s1[k].output
    }
}

/// A pass numbered `g` went from `s1` to `s2`: nodes it had visited are
/// untouched, and every node that changed is now marked as visited.
pub open spec fn pass_step(s1: Map<NodeKey, Node>, s2: Map<NodeKey, Node>, g: u32) -> bool {
    &&& same_layout(s1, s2)
    &&& forall|k: NodeKey| #[trigger] s1.contains_key(k) && s1[k].generation == g ==> s2[k] == s1[k]
    &&& forall|k: NodeKey| #[trigger] s1.contains_key(k) && s2[k] != s1[k] ==> s2[k].generation == g
    &&& unmarked(s2, g).subset_of(unmarked(s1, g))
}

/// The component's nodes are stored, and there are enough of them for its
/// kind: an output, and for a gate at least one input.
pub open spec fn comp_nodes_stored(s: Map<NodeKey, Node>, c: Component) -> bool {
    &&& c.nodes@.len() >= (if c.kind is Input { 1int } else { 2int })
    &&& forall|i: int| 0 <= i < c.nodes@.len() ==> #[trigger] s.contains_key(c.nodes@[i])
}

/// All the nodes, and for each grid point the nodes that stand on it.
pub struct NodeHandler {
    pub node_storage: NodeArena,
    /// For the lookup key of each occupied point, its nodes in the order
    /// in which they arrived.
    pub node_lookup: HashMap<u64, Vec<NodeKey>>,
}

impl NodeHandler {
    /// The nodes, by key.
    pub open spec fn slots(&self) -> Map<NodeKey, Node> {
        node_slots(self.node_storage)
    }

    /// The lookup table, with each list as a sequence.
    pub open spec fn table(&self) -> Map<u64, Seq<NodeKey>> {
        self.node_lookup@.map_values(|v: Vec<NodeKey>| v@)
    }

    /// The nodes standing on `p`, in order of arrival.
    pub open spec fn at(&self, p: IVec2) -> Seq<NodeKey> {
        if self.table().contains_key(key_of(p)) {
            self.table()[key_of(p)]
        } else {
            Seq::empty()
        }
    }

    /// The level read at `p`: that of the first node there, or undefined
    /// when there is none.
    pub open spec fn level_at(&self, p: IVec2) -> LL {
        if self.at(p).len() > 0 { self.slots()[self.at(p)[0]].logic_lvl } else { LL::U }
    }

    /// The lookup table lists exactly the stored nodes, each under the key
    /// of its position, once; no list is empty; keys are nonzero-generation
    /// and positions admissible.
    pub open spec fn wf(&self) -> bool {
        &&& self.slots().dom().finite()
        &&& forall|k: NodeKey| #[trigger] self.slots().contains_key(k) ==> k.gen > 0 && self.slots()[k].pos.in_range()
        &&& forall|key: u64| #[trigger] self.table().contains_key(key) ==> {
            &&& self.table()[key].len() > 0
            &&& self.table()[key].no_duplicates()
        }
        &&& forall|key: u64, i: int| self.table().contains_key(key) && 0 <= i < self.table()[key].len() ==> {
            &&& self.slots().contains_key(#[trigger] self.table()[key][i])
            &&& key_of(self.slots()[self.table()[key][i]].pos) == key
        }
        &&& forall|k: NodeKey| #[trigger] self.slots().contains_key(k) ==> {
            &&& self.table().contains_key(key_of(self.slots()[k].pos))
            &&& self.table()[key_of(self.slots()[k].pos)].contains(k)
        }
    }

    /// An empty handler.
    pub fn new() -> (h: NodeHandler)
        ensures
            h.wf(),
            h.slots().is_empty(),
            h.table().is_empty(),
    {
        let h = NodeHandler { node_storage: NodeArena::new(), node_lookup: HashMap::new() };
        assert(h.table() =~= Map::<u64, Seq<NodeKey>>::empty());
        h
    }

    /// Stores `n`. Where nodes already stand on its point, `n` takes the
    /// level read there if its own is undefined, and those nodes take its
    /// level where theirs is undefined (see `merge`); `n` is listed last on
    /// its point.
    /// A driving node (`output`) must not be placed on a point whose level
    /// it contradicts: that is a short circuit.
    pub fn add_node(&mut self, n: Node) -> (idx: NodeKey)
        requires
            old(self).wf(),
            n.pos.in_range(),
            n.output ==> forall|i: int|
                0 <= i < old(self).at(n.pos).len() ==> !conflicts(
                    #[trigger] old(self).slots()[old(self).at(n.pos)[i]].logic_lvl,
                    n.logic_lvl,
                ),
        ensures
            final(self).wf(),
            !old(self).slots().contains_key(idx),
            idx.gen > 0,
            final(self).slots().dom() == old(self).slots().dom().insert(idx),
            final(self).slots()[idx] == relevel(n, spec_merge(n.logic_lvl, old(self).level_at(n.pos))),
            forall|k: NodeKey| #[trigger] old(self).slots().contains_key(k) ==> final(self).slots()[k] == (
                if old(self).at(n.pos).contains(k) {
                    relevel(old(self).slots()[k], spec_merge(old(self).slots()[k].logic_lvl, n.logic_lvl))
                } else {
                    old(self).slots()[k]
                }),
            final(self).at(n.pos) == old(self).at(n.pos).push(idx),
            forall|p: IVec2| p != n.pos ==> #[trigger] final(self).at(p) == old(self).at(p),
    {
        let ghost os = old(self).slots();
        let ghost ot = old(self).table();
        let pos = n.pos;
        let ll = n.logic_lvl;
        let here = self.query_node(pos);
        let mut n2 = n;
        let _ = n2.logic_lvl.merge(here);
        assert(n2 == relevel(n, spec_merge(n.logic_lvl, old(self).level_at(n.pos))));
        let idx = self.node_storage.insert(n2);
        let key = pos.lookup_key();
        proof {
            assert forall|k: NodeKey| os.contains_key(k) implies k != idx by {}
        }
        match self.node_lookup.remove(&key) {
            Some(mut v) => {
                let ghost v0 = v@;
                assert(v0 == old(self).at(pos));
                v.push(idx);
                let mut i: usize = 0;
                while i < v.len()
                    invariant
                        v@ == v0.push(idx),
                        v0.no_duplicates(),
                        !v0.contains(idx),
                        0 <= i <= v@.len(),
                        self.node_lookup@ == old(self).node_lookup@.remove(key),
                        node_slots(self.node_storage).dom() == os.dom().insert(idx),
                        !os.contains_key(idx),
                        forall|j: int| 0 <= j < v0.len() ==> #[trigger] os.contains_key(v0[j]),
                        forall|k: NodeKey| #[trigger] os.contains_key(k) ==> k.gen > 0,
                        idx.gen > 0,
                        forall|k: NodeKey| os.contains_key(k) && !v0.contains(k) ==> #[trigger] node_slots(self.node_storage)[k] == os[k],
                        forall|j: int| 0 <= j < i && j < v0.len() ==> #[trigger] node_slots(self.node_storage)[v0[j]] == relevel(os[v0[j]], spec_merge(os[v0[j]].logic_lvl, ll)),
                        forall|j: int| i <= j < v0.len() ==> #[trigger] node_slots(self.node_storage)[v0[j]] == os[v0[j]],
                        node_slots(self.node_storage)[idx] == n2,
                        n2.logic_lvl == spec_merge(ll, here),
                        n.logic_lvl == ll,
                    decreases v@.len() - i,
                {
                    let k = v[i];
                    let node = self.node_storage.get_mut(k);
                    let _ok = node.logic_lvl.merge(ll);
                    proof {
                        assert(spec_merge(n2.logic_lvl, ll) == n2.logic_lvl);
                        if (i as int) < v0.len() {
                            assert forall|j: int| 0 <= j < v0.len() && j != i implies v0[j] != k by {}
                        }
                    }
                    i = i + 1;
                }
                self.node_lookup.insert(key, v);
            },
            None => {
                self.node_lookup.insert(key, vec![idx]);
            },
        }
        proof {
            let ns = self.slots();
            let nt = self.table();
            assert forall|p: IVec2| p != pos implies #[trigger] self.at(p) == old(self).at(p) by {
                lemma_key_of_injective(p, pos);
            }
            assert(self.at(pos) =~= old(self).at(pos).push(idx));
            assert forall|k: NodeKey| #[trigger] ns.contains_key(k) implies
                nt.contains_key(key_of(ns[k].pos)) && nt[key_of(ns[k].pos)].contains(k) by {
                if k == idx {
                    assert(nt[key].last() == idx);
                } else {
                    assert(ns[k].pos == os[k].pos);
                    if key_of(os[k].pos) == key {
                        assert(ot[key].contains(k));
                        let j = choose|j: int| 0 <= j < ot[key].len() && ot[key][j] == k;
                        assert(nt[key][j] == k);
                    }
                }
            }
            assert forall|kk: u64| #[trigger] nt.contains_key(kk) && kk != key implies
                nt[kk] == ot[kk] && ot.contains_key(kk) by {}
            assert forall|kk: u64, i: int| #[trigger] nt.contains_key(kk) && kk != key && 0 <= i < nt[kk].len() implies
                #[trigger] ns.contains_key(nt[kk][i]) && key_of(ns[nt[kk][i]].pos) == kk by {
                assert(nt[kk] == ot[kk]);
                assert(ot.contains_key(kk));
                assert(os.contains_key(ot[kk][i]));
            }
            assert(nt.contains_key(key));
            if ot.contains_key(key) {
                assert(nt[key] == ot[key].push(idx));
                assert(!ot[key].contains(idx)) by {
                    if ot[key].contains(idx) {
                        let j = choose|j: int| 0 <= j < ot[key].len() && ot[key][j] == idx;
                        assert(os.contains_key(ot[key][j]));
                    }
                }
                assert forall|a: int, b: int| 0 <= a < b < nt[key].len() implies nt[key][a] != nt[key][b] by {
                    if b == nt[key].len() - 1 {
                        assert(os.contains_key(ot[key][a]));
                    }
                }
                assert forall|i: int| 0 <= i < nt[key].len() implies #[trigger] ns.contains_key(nt[key][i])
                    && key_of(ns[nt[key][i]].pos) == key by {
                    if i < nt[key].len() - 1 {
                        assert(os.contains_key(ot[key][i]));
                    }
                }
            } else {
                assert(nt[key] =~= seq![idx]);
            }
            assert(nt[key].no_duplicates());
            assert(ns[idx].pos == pos);
            assert forall|i: int| 0 <= i < nt[key].len() implies #[trigger] ns.contains_key(nt[key][i])
                && key_of(ns[nt[key][i]].pos) == key by {
                if ot.contains_key(key) {
                    if i < nt[key].len() - 1 {
                        assert(os.contains_key(ot[key][i]));
                    }
                }
            }
            assert forall|kk: u64, i: int| nt.contains_key(kk) && 0 <= i < nt[kk].len() implies
                ns.contains_key(#[trigger] nt[kk][i]) && key_of(ns[nt[kk][i]].pos) == kk by {
                assert(nt[kk].len() > 0);
            }
            assert forall|kk: u64| #[trigger] nt.contains_key(kk) implies {
                &&& nt[kk].len() > 0
                &&& nt[kk].no_duplicates()
                &&& forall|i: int| 0 <= i < nt[kk].len() ==> {
                    &&& #[trigger] ns.contains_key(nt[kk][i])
                    &&& key_of(ns[nt[kk][i]].pos) == kk
                }
            } by {
                if kk != key {
                    assert(nt[kk] == ot[kk] && ot.contains_key(kk));
                    assert forall|i: int| 0 <= i < nt[kk].len() implies {
                        &&& #[trigger] ns.contains_key(nt[kk][i])
                        &&& key_of(ns[nt[kk][i]].pos) == kk
                    } by {
                        assert(nt.contains_key(kk) && kk != key && 0 <= i < nt[kk].len());
                    }
                }
            }
            assert forall|k: NodeKey| #[trigger] ns.contains_key(k) implies k.gen > 0 && ns[k].pos.in_range() by {
                if k != idx {
                    assert(os.contains_key(k));
                }
            }
            assert(ns.dom().finite());
            assert(forall|k: NodeKey| #[trigger] self.slots().contains_key(k) ==> k.gen > 0 && self.slots()[k].pos.in_range());
            assert(forall|k: NodeKey| #[trigger] self.slots().contains_key(k) ==> {
                &&& self.table().contains_key(key_of(self.slots()[k].pos))
                &&& self.table()[key_of(self.slots()[k].pos)].contains(k)
            });
            assert forall|k: NodeKey| #[trigger] old(self).slots().contains_key(k) implies self.slots()[k] == (
                if old(self).at(pos).contains(k) {
                    relevel(os[k], spec_merge(os[k].logic_lvl, ll))
                } else {
                    os[k]
                }) by {
                if old(self).at(pos).contains(k) {
                    let j = choose|j: int| 0 <= j < old(self).at(pos).len() && old(self).at(pos)[j] == k;
                    assert(ot.contains_key(key));
                }
            }
        }
        idx
    }

    /// Takes out every node on `at` that belongs to `owner` (all nodes on
    /// `at` must have an owner, and at least one must be `owner`'s) and
    /// returns the last of them in order of arrival.
    #[verifier::rlimit(60)]
    #[verifier::spinoff_prover]
    pub fn remove_node(&mut self, at: IVec2, owner: ElemIndex) -> (removed: Node)
        requires
            old(self).wf(),
            exists|i: int| 0 <= i < old(self).at(at).len()
                && #[trigger] old(self).slots()[old(self).at(at)[i]].owner == Some(owner),
            forall|i: int| 0 <= i < old(self).at(at).len()
                ==> (#[trigger] old(self).slots()[old(self).at(at)[i]].owner) is Some,
        ensures
            final(self).wf(),
            final(self).at(at) == old(self).at(at).filter(|k: NodeKey| old(self).slots()[k].owner != Some(owner)),
            forall|p: IVec2| p != at ==> #[trigger] final(self).at(p) == old(self).at(p),
            forall|k: NodeKey| #[trigger] final(self).slots().contains_key(k) <==> old(self).slots().contains_key(k)
                && !(old(self).at(at).contains(k) && old(self).slots()[k].owner == Some(owner)),
            forall|k: NodeKey| #[trigger] final(self).slots().contains_key(k) ==> final(self).slots()[k] == old(self).slots()[k],
            exists|j: int| 0 <= j < old(self).at(at).len()
                && old(self).slots()[old(self).at(at)[j]].owner == Some(owner)
                && removed == old(self).slots()[old(self).at(at)[j]]
                && forall|j2: int| j < j2 < old(self).at(at).len()
                    ==> #[trigger] old(self).slots()[old(self).at(at)[j2]].owner != Some(owner),
    {
        let ghost os = old(self).slots();
        let ghost ot = old(self).table();
        let ghost keep = |k: NodeKey| os[k].owner != Some(owner);
        let key = at.lookup_key();
        let vals = self.node_lookup.remove(&key).unwrap();
        let ghost vs = vals@;
        assert(vs == old(self).at(at));
        let mut kept: Vec<NodeKey> = Vec::new();
        let mut removed: Option<Node> = None;
        let ghost mut last: int = -1;
        let mut i: usize = 0;
        while i < vals.len()
            invariant
                vals@ == vs,
                keep == (|k: NodeKey| os[k].owner != Some(owner)),
                vs.no_duplicates(),
                0 <= i <= vs.len(),
                forall|j: int| 0 <= j < vs.len() ==> #[trigger] os.contains_key(vs[j]),
                forall|j: int| 0 <= j < vs.len() ==> (#[trigger] os[vs[j]].owner) is Some,
                forall|k: NodeKey| #[trigger] os.contains_key(k) ==> k.gen > 0,
                self.node_lookup@ == old(self).node_lookup@.remove(key),
                kept@ == vs.take(i as int).filter(keep),
                kept@.no_duplicates(),
                forall|x: NodeKey| kept@.contains(x) ==> exists|j: int| 0 <= j < i && vs[j] == x,
                forall|k: NodeKey| #[trigger] node_slots(self.node_storage).contains_key(k) <==> os.contains_key(k)
                    && !(vs.take(i as int).contains(k) && !keep(k)),
                forall|k: NodeKey| #[trigger] node_slots(self.node_storage).contains_key(k) ==> node_slots(self.node_storage)[k] == os[k],
                -1 <= last < i,
                last == -1 ==> removed is None,
                forall|j: int| 0 <= j < i && !keep(vs[j]) ==> last >= j,
                last >= 0 ==> !keep(vs[last]) && removed == Some(os[vs[last]]),
            decreases vs.len() - i,
        {
            let e = vals[i];
            proof {
                assert(vs.take(i + 1) == vs.take(i as int).push(e));
                vs.take(i as int).lemma_filter_push(e, keep);
                assert(!vs.take(i as int).contains(e)) by {
                    if vs.take(i as int).contains(e) {
                        let j = choose|j: int| 0 <= j < i && vs.take(i as int)[j] == e;
                        assert(vs[j] == vs[i as int]);
                    }
                }
                assert(node_slots(self.node_storage).contains_key(e));
            }
            let nd = *self.node_storage.get(e).unwrap();
            let rm = match nd.owner {
                Some(o) => o == owner,
                None => false,
            };
            assert(nd == os[e]);
            assert(keep(e) == (os[e].owner != Some(owner)));
            assert(rm == (nd.owner == Some(owner)));
            assert(rm == !keep(e));
            let ghost kept0 = kept@;
            if rm {
                removed = self.node_storage.remove(e);
                proof { last = i as int; }
            } else {
                proof {
                    assert(!kept@.contains(e)) by {
                        if kept@.contains(e) {
                            let j = choose|j: int| 0 <= j < i && vs[j] == e;
                            assert(vs[j] == vs[i as int]);
                        }
                    }
                }
                kept.push(e);
            }
            proof {
                assert forall|k: NodeKey| vs.take(i + 1).contains(k) <==> vs.take(i as int).contains(k) || k == e by {
                    if vs.take(i as int).contains(k) {
                        let j = choose|j: int| 0 <= j < i && vs.take(i as int)[j] == k;
                        assert(vs.take(i + 1)[j] == k);
                    }
                    if k == e {
                        assert(vs.take(i + 1)[i as int] == k);
                    }
                    if vs.take(i + 1).contains(k) {
                        let j = choose|j: int| 0 <= j < i + 1 && #[trigger] vs.take(i + 1)[j] == k;
                        if j < i {
                            assert(vs.take(i as int)[j] == k);
                        }
                    }
                }
                assert forall|x: NodeKey| kept@.contains(x) implies exists|j: int| 0 <= j < i + 1 && vs[j] == x by {
                    if x == e {
                        assert(vs[i as int] == x);
                    } else {
                        assert(kept0.contains(x));
                    }
                }
            }
            i = i + 1;
        }
        proof {
            assert(vs.take(vs.len() as int) == vs);
        }
        if kept.len() > 0 {
            self.node_lookup.insert(key, kept);
        }
        proof {
            let ns = self.slots();
            let nt = self.table();
            let filtered = vs.filter(keep);
            assert(kept@ == filtered);
            assert(self.at(at) == filtered) by {
                if kept@.len() == 0 {
                    assert(filtered =~= Seq::<NodeKey>::empty());
                }
            }
            assert forall|p: IVec2| p != at implies #[trigger] self.at(p) == old(self).at(p) by {
                lemma_key_of_injective(p, at);
            }
            assert forall|x: NodeKey| filtered.contains(x) implies ns.contains_key(x) && key_of(ns[x].pos) == key by {
                let j = choose|j: int| 0 <= j < vs.len() && vs[j] == x;
                assert(os.contains_key(x));
                assert(keep(x)) by {
                    let jj = choose|jj: int| 0 <= jj < filtered.len() && filtered[jj] == x;
                    vs.lemma_filter_pred(keep, jj);
                }
                assert(ot[key].contains(x));
            }
            if nt.contains_key(key) {
                assert(kept@.len() > 0);
                assert(nt[key] == kept@);
                assert(nt[key].no_duplicates());
            }
            assert forall|kk: u64| #[trigger] nt.contains_key(kk) && kk != key implies
                ot.contains_key(kk) && nt[kk] == ot[kk] by {}
            assert forall|kk: u64, i: int| nt.contains_key(kk) && 0 <= i < nt[kk].len() implies
                ns.contains_key(#[trigger] nt[kk][i]) && key_of(ns[nt[kk][i]].pos) == kk by {
                if kk != key {
                    assert(nt[kk] == ot[kk] && ot.contains_key(kk));
                    let x = ot[kk][i];
                    assert(os.contains_key(x));
                    assert(key_of(os[x].pos) == kk);
                    if vs.contains(x) {
                        let j = choose|j: int| 0 <= j < vs.len() && vs[j] == x;
                        assert(key_of(os[vs[j]].pos) == key);
                    }
                    assert(!vs.take(vs.len() as int).contains(x));
                } else {
                    assert(nt[kk] == filtered);
                    assert(filtered.contains(filtered[i]));
                }
            }
            assert forall|kk: u64| #[trigger] nt.contains_key(kk) implies nt[kk].len() > 0 && nt[kk].no_duplicates() by {
                if kk != key {
                    assert(nt[kk] == ot[kk] && ot.contains_key(kk));
                }
            }
            assert forall|k: NodeKey| #[trigger] ns.contains_key(k) implies k.gen > 0 && ns[k].pos.in_range() by {
                assert(os.contains_key(k));
            }
            assert forall|k: NodeKey| #[trigger] ns.contains_key(k) implies {
                &&& nt.contains_key(key_of(ns[k].pos))
                &&& nt[key_of(ns[k].pos)].contains(k)
            } by {
                assert(os.contains_key(k));
                if key_of(os[k].pos) == key {
                    assert(vs.contains(k));
                    let j = choose|j: int| 0 <= j < vs.len() && vs[j] == k;
                    assert(keep(k));
                    vs.lemma_filter_contains(keep, j);
                    assert(filtered.len() > 0);
                } else {
                    assert(ot.contains_key(key_of(os[k].pos)));
                }
            }
            assert(ns.dom() =~= os.dom().filter(|k: NodeKey| !(vs.contains(k) && !keep(k))));
            assert(ns.dom().finite());
            assert forall|k: NodeKey| #[trigger] ns.contains_key(k) <==> os.contains_key(k)
                && !(old(self).at(at).contains(k) && os[k].owner == Some(owner)) by {}
            let w = choose|w: int| 0 <= w < vs.len() && #[trigger] os[vs[w]].owner == Some(owner);
            assert(!keep(vs[w]));
            assert(last >= 0);
        }
        removed.unwrap()
    }

    /// Like `wf`, except that node `x` is listed nowhere.
    pub open spec fn wf_except(&self, x: NodeKey) -> bool {
        &&& self.slots().dom().finite()
        &&& forall|k: NodeKey| #[trigger] self.slots().contains_key(k) ==> k.gen > 0 && self.slots()[k].pos.in_range()
        &&& forall|key: u64| #[trigger] self.table().contains_key(key) ==> {
            &&& self.table()[key].len() > 0
            &&& self.table()[key].no_duplicates()
            &&& !self.table()[key].contains(x)
        }
        &&& forall|key: u64, i: int| self.table().contains_key(key) && 0 <= i < self.table()[key].len() ==> {
            &&& self.slots().contains_key(#[trigger] self.table()[key][i])
            &&& key_of(self.slots()[self.table()[key][i]].pos) == key
        }
        &&& forall|k: NodeKey| #[trigger] self.slots().contains_key(k) && k != x ==> {
            &&& self.table().contains_key(key_of(self.slots()[k].pos))
            &&& self.table()[key_of(self.slots()[k].pos)].contains(k)
        }
    }

    /// Takes node `x` off the list of its point.
    fn unlist(&mut self, x: NodeKey)
        requires
            old(self).wf(),
            old(self).slots().contains_key(x),
        ensures
            final(self).wf_except(x),
            final(self).slots() == old(self).slots(),
            final(self).at(old(self).slots()[x].pos) == old(self).at(old(self).slots()[x].pos).filter(|y: NodeKey| y != x),
            forall|p: IVec2| p != old(self).slots()[x].pos ==> #[trigger] final(self).at(p) == old(self).at(p),
    {
        let ghost os = self.slots();
        let ghost ot = self.table();
        let ghost keep = |y: NodeKey| y != x;
        let p = self.node_storage.get(x).unwrap().pos;
        let key = p.lookup_key();
        let vals = self.node_lookup.remove(&key).unwrap();
        let ghost vs = vals@;
        let mut kept: Vec<NodeKey> = Vec::new();
        let mut i: usize = 0;
        assert(vs.take(0).filter(keep) =~= Seq::<NodeKey>::empty()) by {
            reveal(Seq::filter);
        }
        while i < vals.len()
            invariant
                vals@ == vs,
                keep == (|y: NodeKey| y != x),
                vs.no_duplicates(),
                0 <= i <= vs.len(),
                self.node_lookup@ == old(self).node_lookup@.remove(key),
                self.slots() == os,
                kept@ == vs.take(i as int).filter(keep),
                kept@.no_duplicates(),
                !kept@.contains(x),
                forall|y: NodeKey| kept@.contains(y) ==> exists|j: int| 0 <= j < i && vs[j] == y,
                forall|j: int| 0 <= j < i && vs[j] != x ==> kept@.contains(#[trigger] vs[j]),
            decreases vs.len() - i,
        {
            let e = vals[i];
            proof {
                assert(vs.take(i + 1) == vs.take(i as int).push(e));
                vs.take(i as int).lemma_filter_push(e, keep);
            }
            let ghost kept0 = kept@;
            if e != x {
                proof {
                    assert(!kept@.contains(e)) by {
                        if kept@.contains(e) {
                            let j = choose|j: int| 0 <= j < i && vs[j] == e;
                            assert(vs[j] == vs[i as int]);
                        }
                    }
                }
                kept.push(e);
            }
            proof {
                assert forall|y: NodeKey| kept@.contains(y) implies exists|j: int| 0 <= j < i + 1 && vs[j] == y by {
                    if y == e {
                        assert(vs[i as int] == y);
                    } else {
                        assert(kept0.contains(y));
                    }
                }
                assert forall|j: int| 0 <= j < i + 1 && vs[j] != x implies kept@.contains(#[trigger] vs[j]) by {
                    if j < i {
                        assert(kept0.contains(vs[j]));
                        let m = choose|m: int| 0 <= m < kept0.len() && kept0[m] == vs[j];
                        assert(kept@[m] == vs[j]);
                    } else {
                        assert(kept@.last() == vs[j]);
                    }
                }
            }
            i = i + 1;
        }
        assert(vs.take(vs.len() as int) == vs);
        if kept.len() > 0 {
            self.node_lookup.insert(key, kept);
        }
        proof {
            let nt = self.table();
            let rest = vs.filter(keep);
            assert(rest == kept@);
            assert(self.at(p) == rest) by {
                if kept@.len() == 0 {
                    assert(rest =~= Seq::<NodeKey>::empty());
                }
            }
            assert forall|q: IVec2| q != p implies #[trigger] self.at(q) == old(self).at(q) by {
                lemma_key_of_injective(q, p);
            }
            assert forall|kk: u64| #[trigger] nt.contains_key(kk) implies {
                &&& nt[kk].len() > 0
                &&& nt[kk].no_duplicates()
                &&& !nt[kk].contains(x)
            } by {
                if kk != key {
                    assert(nt[kk] == ot[kk] && ot.contains_key(kk));
                    if ot[kk].contains(x) {
                        let j = choose|j: int| 0 <= j < ot[kk].len() && ot[kk][j] == x;
                        assert(key_of(os[ot[kk][j]].pos) == kk);
                    }
                }
            }
            assert forall|kk: u64, i: int| nt.contains_key(kk) && 0 <= i < nt[kk].len() implies
                os.contains_key(#[trigger] nt[kk][i]) && key_of(os[nt[kk][i]].pos) == kk by {
                if kk != key {
                    assert(nt[kk] == ot[kk] && ot.contains_key(kk));
                } else {
                    assert(kept@.contains(nt[kk][i]));
                    let m = choose|m: int| 0 <= m < vs.len() && vs[m] == nt[kk][i];
                    assert(ot.contains_key(key));
                    assert(os.contains_key(ot[key][m]));
                }
            }
            assert forall|k: NodeKey| #[trigger] os.contains_key(k) && k != x implies {
                &&& nt.contains_key(key_of(os[k].pos))
                &&& nt[key_of(os[k].pos)].contains(k)
            } by {
                if key_of(os[k].pos) == key {
                    assert(ot[key].contains(k));
                    let m = choose|m: int| 0 <= m < vs.len() && vs[m] == k;
                    assert(kept@.contains(vs[m]));
                } else {
                    assert(ot.contains_key(key_of(os[k].pos)));
                }
            }
        }
    }

    /// Lists node `x` last on the list of its point; returns the level of
    /// the node that was first there, if any.
    fn relist(&mut self, x: NodeKey) -> (dest: Option<LL>)
        requires
            old(self).wf_except(x),
            old(self).slots().contains_key(x),
        ensures
            final(self).wf(),
            final(self).slots() == old(self).slots(),
            final(self).at(old(self).slots()[x].pos) == old(self).at(old(self).slots()[x].pos).push(x),
            forall|p: IVec2| p != old(self).slots()[x].pos ==> #[trigger] final(self).at(p) == old(self).at(p),
            dest == (if old(self).at(old(self).slots()[x].pos).len() > 0 {
                Some(old(self).slots()[old(self).at(old(self).slots()[x].pos)[0]].logic_lvl)
            } else {
                None::<LL>
            }),
    {
        let ghost os = self.slots();
        let ghost ot = self.table();
        let p = self.node_storage.get(x).unwrap().pos;
        let key = p.lookup_key();
        let dest = match self.node_lookup.remove(&key) {
            Some(mut v) => {
                proof {
                    assert(ot.contains_key(key));
                    assert(os.contains_key(v@[0]));
                }
                let d = self.node_storage.get(v[0]).unwrap().logic_lvl;
                v.push(x);
                self.node_lookup.insert(key, v);
                Some(d)
            },
            None => {
                self.node_lookup.insert(key, vec![x]);
                None
            },
        };
        proof {
            let nt = self.table();
            assert(self.at(p) =~= old(self).at(p).push(x));
            assert forall|q: IVec2| q != p implies #[trigger] self.at(q) == old(self).at(q) by {
                lemma_key_of_injective(q, p);
            }
            assert forall|kk: u64| #[trigger] nt.contains_key(kk) implies nt[kk].len() > 0 && nt[kk].no_duplicates() by {
                if kk != key {
                    assert(nt[kk] == ot[kk] && ot.contains_key(kk));
                } else if ot.contains_key(key) {
                    assert(!ot[key].contains(x));
                    assert forall|a: int, b: int| 0 <= a < b < nt[key].len() implies nt[key][a] != nt[key][b] by {
                        if b == nt[key].len() - 1 {
                            assert(ot[key][a] != x);
                        }
                    }
                } else {
                    assert(nt[key] =~= seq![x]);
                }
            }
            assert forall|kk: u64, i: int| nt.contains_key(kk) && 0 <= i < nt[kk].len() implies
                os.contains_key(#[trigger] nt[kk][i]) && key_of(os[nt[kk][i]].pos) == kk by {
                if kk != key {
                    assert(nt[kk] == ot[kk] && ot.contains_key(kk));
                } else if i < nt[kk].len() - 1 {
                    assert(ot.contains_key(key));
                    assert(nt[kk][i] == ot[kk][i]);
                }
            }
            assert forall|k: NodeKey| #[trigger] os.contains_key(k) implies {
                &&& nt.contains_key(key_of(os[k].pos))
                &&& nt[key_of(os[k].pos)].contains(k)
            } by {
                if k == x {
                    assert(nt[key].last() == x);
                } else if key_of(os[k].pos) == key {
                    assert(ot.contains_key(key));
                    let j = choose|j: int| 0 <= j < ot[key].len() && ot[key][j] == k;
                    assert(nt[key][j] == k);
                } else {
                    assert(ot.contains_key(key_of(os[k].pos)));
                }
            }
        }
        dest
    }

    /// Moves node `nidx` (which belongs to `owner`) by `by`: it is taken off
    /// the list of its point and listed last on its new point. Then the
    /// net at the new point is set to the node's level (a new pass); if no
    /// output drives that net and the node is not itself an output, the
    /// node becomes undefined, and otherwise it takes the level of the node
    /// that was first on the new point, if there was one.
    pub fn move_node(&mut self, nidx: NodeKey, by: IVec2, owner: ElemIndex, wires: &Wires, comps: &CompArena, generation: &mut u32)
        requires
            old(self).wf(),
            old(self).slots().contains_key(nidx),
            old(self).slots()[nidx].owner == Some(owner),
            by.in_range(),
            pair_in_range(vadd(old(self).slots()[nidx].pos, by)),
        ensures
            final(self).wf(),
            final(self).slots().dom() == old(self).slots().dom(),
            final(self).slots()[nidx].pos == mk(vadd(old(self).slots()[nidx].pos, by)),
            forall|k: NodeKey| #[trigger] old(self).slots().contains_key(k) ==> {
                &&& final(self).slots()[k].owner == old(self).slots()[k].owner
                &&& final(self).slots()[k].output == old(self).slots()[k].output
                &&& k != nidx ==> final(self).slots()[k].pos == old(self).slots()[k].pos
            },
            ({
                let op = old(self).slots()[nidx].pos;
                let np = mk(vadd(op, by));
                &&& forall|p: IVec2| p != op && p != np ==> #[trigger] final(self).at(p) == old(self).at(p)
                &&& op != np ==> final(self).at(op) == old(self).at(op).filter(|y: NodeKey| y != nidx)
                &&& final(self).at(np) == (if op == np {
                    old(self).at(op).filter(|y: NodeKey| y != nidx)
                } else {
                    old(self).at(np)
                }).push(nidx)
            }),
            !old(self).slots()[nidx].output && fresh(old(self).slots(), *final(generation))
                && !output_reachable(*final(self), wires.slots(), mk(vadd(old(self).slots()[nidx].pos, by)))
                ==> final(self).slots()[nidx].logic_lvl == LL::U,
    {
        let ghost os = self.slots();
        let oldpos = self.node_storage.get(nidx).unwrap().pos;
        let newpos = oldpos.plus(by);
        self.unlist(nidx);
        let ghost t1 = self.table();
        let ghost h1 = *self;
        {
            let nm = self.node_storage.get_mut(nidx);
            nm.pos = newpos;
        }
        proof {
            let s2 = self.slots();
            assert(s2.dom() =~= os.dom());
            assert(self.table() == t1);
            assert forall|kk: u64, i: int| self.table().contains_key(kk) && 0 <= i < self.table()[kk].len() implies
                s2.contains_key(#[trigger] self.table()[kk][i]) && key_of(s2[self.table()[kk][i]].pos) == kk by {
                assert(h1.slots().contains_key(t1[kk][i]));
                assert(t1[kk][i] != nidx);
            }
            assert forall|k: NodeKey| #[trigger] s2.contains_key(k) implies k.gen > 0 && s2[k].pos.in_range() by {
                assert(os.contains_key(k));
            }
            assert forall|k: NodeKey| #[trigger] s2.contains_key(k) && k != nidx implies {
                &&& self.table().contains_key(key_of(s2[k].pos))
                &&& self.table()[key_of(s2[k].pos)].contains(k)
            } by {
                assert(h1.slots().contains_key(k));
            }
            assert(self.wf_except(nidx));
        }
        let ghost h2 = *self;
        let dest = self.relist(nidx);
        let ll = self.node_storage.get(nidx).unwrap().logic_lvl;
        let ghost h3 = *self;
        let ghost g0 = *generation;
        set_nodes(self, wires, comps, newpos, generation, ll, true);
        let ghost hs = *self;
        let ghost gs = *generation;
        let driven = check_driven(self, wires, comps, newpos, generation, true);
        let ghost h4 = *self;
        proof {
            let gg = *generation;
            if fresh(old(self).slots(), gg) {
                assert(next_pass(gs) != gs);
                assert(next_pass(next_pass(g0)) != next_pass(g0));
                assert(next_pass(next_pass(next_pass(g0))) != next_pass(g0));
                assert forall|k: NodeKey| #[trigger] hs.slots().contains_key(k) implies hs.slots()[k].generation != gg by {
                    assert(h3.slots().contains_key(k));
                    assert(os.contains_key(k));
                    if hs.slots()[k] == h3.slots()[k] {
                        assert(h3.slots()[k].generation == os[k].generation);
                    }
                }
            }
        }
        proof {
            assert(same_layout(h3.slots(), h4.slots()));
        }
        let out = self.node_storage.get(nidx).unwrap().output;

        if !driven && !out {
            let nm = self.node_storage.get_mut(nidx);
            nm.logic_lvl = LL::U;
        } else {
            match dest {
                Some(l) => {
                    let nm = self.node_storage.get_mut(nidx);
                    nm.logic_lvl = l;
                },
                None => {},
            }
        }
        proof {
            assert(self.slots().dom() =~= h4.slots().dom());
            assert(same_layout(h4.slots(), self.slots()));
            lemma_wf_layout(h4, *self);
            assert(same_layout(hs.slots(), self.slots()));
            lemma_output_reach_layout(hs, *self, wires.slots(), newpos);
            let op = oldpos;
            let np = newpos;
            assert(self.table() == h3.table());
            assert(h2.table() == h1.table());
            assert(h2.slots()[nidx].pos == np);
            assert(h1.at(op) == old(self).at(op).filter(|y: NodeKey| y != nidx));
            assert forall|p: IVec2| p != op && p != np implies #[trigger] self.at(p) == old(self).at(p) by {
                assert(h3.at(p) == h2.at(p));
                assert(h2.at(p) == h1.at(p));
            }
            if op != np {
                assert(h3.at(op) == h2.at(op));
            }
            assert(h3.at(np) == h2.at(np).push(nidx));
            assert(np == mk(vadd(op, by)));
            if op == np {
                assert(h2.at(np) == old(self).at(op).filter(|y: NodeKey| y != nidx));
            } else {
                assert(h1.at(np) == old(self).at(np));
                assert(h2.at(np) == old(self).at(np));
            }
        }
    }

    /// Whether `remove_node(at, owner)` applies: some node on `at` belongs
    /// to `owner`, and every node on `at` has an owner.
    pub fn owned_at(&self, at: IVec2, owner: ElemIndex) -> (r: bool)
        requires
            self.wf(),
        ensures
            r == ((exists|i: int| 0 <= i < self.at(at).len()
                && #[trigger] self.slots()[self.at(at)[i]].owner == Some(owner))
                && forall|i: int| 0 <= i < self.at(at).len()
                ==> (#[trigger] self.slots()[self.at(at)[i]].owner) is Some),
    {
        let v = match self.node_lookup.get(&at.lookup_key()) {
            Some(v) => v,
            None => {
                return false;
            },
        };
        let ghost s = self.slots();
        let ghost l = self.at(at);
        assert(v@ == l);
        let mut found = false;
        let mut i: usize = 0;
        while i < v.len()
            invariant
                v@ == l,
                l == self.at(at),
                s == self.slots(),
                self.wf(),
                0 <= i <= l.len(),
                forall|j: int| 0 <= j < l.len() ==> s.contains_key(#[trigger] l[j]),
                forall|j: int| 0 <= j < i ==> (#[trigger] s[l[j]].owner) is Some,
                found == exists|j: int| 0 <= j < i && #[trigger] s[l[j]].owner == Some(owner),
            decreases l.len() - i,
        {
            proof {
                assert(self.table().contains_key(key_of(at)));
            }
            let nd = self.node_storage.get(v[i]).unwrap();
            match nd.owner {
                None => {
                    return false;
                },
                Some(o) => {
                    if o == owner {
                        found = true;
                    }
                },
            }
            i = i + 1;
        }
        found
    }

    /// Whether no node on `at` has a defined level other than `l`.
    pub fn conflict_free(&self, at: IVec2, l: LL) -> (r: bool)
        requires
            self.wf(),
        ensures
            r == forall|i: int| 0 <= i < self.at(at).len()
                ==> !conflicts(#[trigger] self.slots()[self.at(at)[i]].logic_lvl, l),
    {
        let v = match self.node_lookup.get(&at.lookup_key()) {
            Some(v) => v,
            None => {
                return true;
            },
        };
        let ghost s = self.slots();
        let ghost lst = self.at(at);
        let mut i: usize = 0;
        while i < v.len()
            invariant
                v@ == lst,
                lst == self.at(at),
                s == self.slots(),
                self.wf(),
                0 <= i <= lst.len(),
                forall|j: int| 0 <= j < lst.len() ==> s.contains_key(#[trigger] lst[j]),
                forall|j: int| 0 <= j < i ==> !conflicts(#[trigger] s[lst[j]].logic_lvl, l),
            decreases lst.len() - i,
        {
            proof {
                assert(self.table().contains_key(key_of(at)));
            }
            let nd = self.node_storage.get(v[i]).unwrap();
            let c = nd.logic_lvl != LL::U && l != LL::U && nd.logic_lvl != l;
            if c {
                return false;
            }
            i = i + 1;
        }
        true
    }

    /// How many nodes stand on `at`.
    pub fn count_nodes(&self, at: IVec2) -> (n: usize)
        requires
            self.wf(),
        ensures
            n == self.at(at).len(),
    {
        match self.node_lookup.get(&at.lookup_key()) {
            Some(v) => v.len(),
            None => 0,
        }
    }

    /// The level of the first node on `at`, or undefined when there is none.
    pub fn query_node(&self, at: IVec2) -> (l: LL)
        requires
            self.wf(),
        ensures
            l == self.level_at(at),
    {
        match self.node_lookup.get(&at.lookup_key()) {
            Some(v) => {
                let k = v[0];
                assert(self.slots().contains_key(self.table()[key_of(at)][0]));
                match self.node_storage.get(k) {
                    Some(n) => n.logic_lvl,
                    None => LL::U,
                }
            },
            None => LL::U,
        }
    }
}


/// A walk that only changes levels and visit marks keeps the handler
/// well formed.
pub proof fn lemma_wf_layout(h1: NodeHandler, h2: NodeHandler)
    requires
        h1.wf(),
        same_layout(h1.slots(), h2.slots()),
        h2.table() == h1.table(),
    ensures
        h2.wf(),
{
    let s1 = h1.slots();
    let s2 = h2.slots();
    assert forall|k: NodeKey| #[trigger] s2.contains_key(k) implies k.gen > 0 && s2[k].pos.in_range() by {
        assert(s1.contains_key(k));
    }
    assert forall|kk: u64, i: int| h2.table().contains_key(kk) && 0 <= i < h2.table()[kk].len() implies
        s2.contains_key(#[trigger] h2.table()[kk][i]) && key_of(s2[h2.table()[kk][i]].pos) == kk by {
        assert(s1.contains_key(h1.table()[kk][i]));
    }
    assert forall|k: NodeKey| #[trigger] s2.contains_key(k) implies {
        &&& h2.table().contains_key(key_of(s2[k].pos))
        &&& h2.table()[key_of(s2[k].pos)].contains(k)
    } by {
        assert(s1.contains_key(k));
    }
}

/// The keys in `v`, copied.
pub fn copy_keys(v: &Vec<NodeKey>) -> (r: Vec<NodeKey>)
    ensures
        r@ == v@,
{
    let mut r: Vec<NodeKey> = Vec::new();
    let mut i: usize = 0;
    while i < v.len()
        invariant
            0 <= i <= v@.len(),
            r@ == v@.take(i as int),
        decreases v@.len() - i,
    {
        r.push(v[i]);
        proof {
            assert(v@.take(i + 1) == v@.take(i as int).push(v@[i as int]));
        }
        i = i + 1;
    }
    assert(v@.take(v@.len() as int) == v@);
    r
}

/// The point that node `k`, owned by `owner`, leads to along its wire: the
/// far end of the live wire whose start or end node it is.
pub open spec fn wire_next(ws: Map<WireKey, Wire>, owner: Option<ElemIndex>, k: NodeKey) -> Option<IVec2> {
    match owner {
        Some(ElemIndex::Wire(w)) => if ws.contains_key(w) {
            if ws[w].startnode == Some(k) {
                Some(ws[w].end)
            } else if ws[w].endnode == Some(k) {
                Some(ws[w].start)
            } else {
                None
            }
        } else {
            None
        },
        _ => None,
    }
}

/// One step through the net: some node on `q` leads along its wire to `p`.
pub open spec fn net_step(h: NodeHandler, ws: Map<WireKey, Wire>, q: IVec2, p: IVec2) -> bool {
    exists|i: int| 0 <= i < h.at(q).len() && #[trigger] wire_next(ws, h.slots()[h.at(q)[i]].owner, h.at(q)[i]) == Some(p)
}

/// `ps` is a walk through the net from `from` to `p`.
pub open spec fn is_walk(h: NodeHandler, ws: Map<WireKey, Wire>, from: IVec2, p: IVec2, ps: Seq<IVec2>) -> bool {
    &&& ps.len() > 0
    &&& ps[0] == from
    &&& ps.last() == p
    &&& forall|i: int| #![trigger ps[i]] 0 <= i < ps.len() - 1 ==> net_step(h, ws, ps[i], ps[i + 1])
}

/// `p` is connected to `from`: the nodes on a point are joined to each
/// other, and a wire's start and end nodes to the other end of the wire.
/// Components are not crossed.
pub open spec fn reachable(h: NodeHandler, ws: Map<WireKey, Wire>, from: IVec2, p: IVec2) -> bool {
    exists|ps: Seq<IVec2>| #[trigger] is_walk(h, ws, from, p, ps)
}

/// Some node on a point connected to `from` is an output.
pub open spec fn output_reachable(h: NodeHandler, ws: Map<WireKey, Wire>, from: IVec2) -> bool {
    exists|p: IVec2, i: int| #[trigger] reachable(h, ws, from, p) && 0 <= i < h.at(p).len()
        && #[trigger] h.slots()[h.at(p)[i]].output
}

/// No node carries the mark of pass `g`.
pub open spec fn fresh(s: Map<NodeKey, Node>, g: u32) -> bool {
    forall|k: NodeKey| #[trigger] s.contains_key(k) ==> s[k].generation != g
}

/// Pass `g` has visited `p` (its first node is marked), or `p` has no
/// nodes.
pub open spec fn touched(h: NodeHandler, p: IVec2, g: u32) -> bool {
    h.at(p).len() > 0 ==> h.slots()[h.at(p)[0]].generation == g
}

/// Pass `g` is through with `p`: every node on it is marked (and, with
/// `no_out`, none is an output), and each leads along its wire to a point
/// the pass has visited.
pub open spec fn settled(h: NodeHandler, ws: Map<WireKey, Wire>, p: IVec2, g: u32, no_out: bool) -> bool {
    forall|i: int| 0 <= i < h.at(p).len() ==> {
        &&& h.slots()[#[trigger] h.at(p)[i]].generation == g
        &&& no_out ==> !h.slots()[h.at(p)[i]].output
        &&& (wire_next(ws, h.slots()[h.at(p)[i]].owner, h.at(p)[i]) matches Some(r) ==> touched(h, r, g))
    }
}

/// The marks of pass `g` are consistent: each point with a marked node has
/// its first node marked, and each visited point is settled unless it is
/// still being walked (in `pend`).
#[verifier::opaque]
pub open spec fn closed_pass(h: NodeHandler, ws: Map<WireKey, Wire>, g: u32, pend: Set<IVec2>, no_out: bool) -> bool {
    &&& forall|p: IVec2| #![trigger h.at(p)] h.at(p).len() > 0 && h.slots()[h.at(p)[0]].generation == g
        ==> pend.contains(p) || settled(h, ws, p, g, no_out)
    &&& forall|p: IVec2, i: int| #![trigger h.at(p)[i]] 0 <= i < h.at(p).len() && h.slots()[h.at(p)[i]].generation == g
        ==> h.slots()[h.at(p)[0]].generation == g
}

/// A fresh pass is consistent, with nothing being walked.
pub proof fn lemma_fresh_closed(h: NodeHandler, ws: Map<WireKey, Wire>, g: u32, no_out: bool)
    requires
        h.wf(),
        fresh(h.slots(), g),
    ensures
        closed_pass(h, ws, g, Set::empty(), no_out),
{
    reveal(closed_pass);
    assert forall|p: IVec2, i: int| 0 <= i < h.at(p).len() implies h.slots()[h.at(p)[i]].generation != g by {
        assert(h.table().contains_key(key_of(p)));
        assert(h.slots().contains_key(h.table()[key_of(p)][i]));
    }
}

/// The marks' consistency depends only on the lookup table and the nodes.
pub proof fn lemma_closed_same(h1: NodeHandler, h2: NodeHandler, ws: Map<WireKey, Wire>, g: u32, pend: Set<IVec2>, no_out: bool)
    requires
        h1.table() == h2.table(),
        h1.slots() == h2.slots(),
        closed_pass(h1, ws, g, pend, no_out),
    ensures
        closed_pass(h2, ws, g, pend, no_out),
{
    reveal(closed_pass);
    assert forall|p: IVec2| #[trigger] h2.at(p) == h1.at(p) by {}
    assert forall|p: IVec2| settled(h1, ws, p, g, no_out) == settled(h2, ws, p, g, no_out) by {
        assert(h2.at(p) == h1.at(p));
        assert forall|r: IVec2| touched(h1, r, g) == touched(h2, r, g) by {
            assert(h2.at(r) == h1.at(r));
        }
    }
}

/// Walking more points keeps the marks consistent.
pub proof fn lemma_closed_more_pend(h: NodeHandler, ws: Map<WireKey, Wire>, g: u32, pend: Set<IVec2>, q: IVec2, no_out: bool)
    requires
        closed_pass(h, ws, g, pend, no_out),
    ensures
        closed_pass(h, ws, g, pend.insert(q), no_out),
{
    reveal(closed_pass);
}

/// Once `q` is settled it need not be walked any more.
pub proof fn lemma_closed_settle(h: NodeHandler, ws: Map<WireKey, Wire>, g: u32, pend: Set<IVec2>, q: IVec2, no_out: bool)
    requires
        closed_pass(h, ws, g, pend.insert(q), no_out),
        settled(h, ws, q, g, no_out),
    ensures
        closed_pass(h, ws, g, pend, no_out),
{
    reveal(closed_pass);
}

/// Marks stay: what a pass had touched stays touched after more of it.
pub proof fn lemma_touched_stays(h1: NodeHandler, h2: NodeHandler, p: IVec2, g: u32)
    requires
        h1.wf(),
        h1.table() == h2.table(),
        pass_step(h1.slots(), h2.slots(), g),
        touched(h1, p, g),
    ensures
        touched(h2, p, g),
{
    if h1.at(p).len() > 0 {
        assert(h1.table().contains_key(key_of(p)));
        assert(h1.slots().contains_key(h1.at(p)[0]));
    }
}

/// Marking node `k` on `q`, a point being walked whose earlier nodes are
/// marked, keeps the marks consistent.
pub proof fn lemma_closed_mark(h1: NodeHandler, h2: NodeHandler, ws: Map<WireKey, Wire>, g: u32, pend: Set<IVec2>,
    q: IVec2, j: int, n: Node, no_out: bool)
    requires
        h1.wf(),
        h1.table() == h2.table(),
        0 <= j < h1.at(q).len(),
        forall|m: int| 0 <= m < j ==> h1.slots()[#[trigger] h1.at(q)[m]].generation == g,
        h2.slots() == h1.slots().insert(h1.at(q)[j], n),
        n.generation == g,
        n.owner == h1.slots()[h1.at(q)[j]].owner,
        n.output == h1.slots()[h1.at(q)[j]].output,
        pend.contains(q),
        closed_pass(h1, ws, g, pend, no_out),
    ensures
        closed_pass(h2, ws, g, pend, no_out),
{
    reveal(closed_pass);
    let k = h1.at(q)[j];
    assert(h1.table().contains_key(key_of(q)));
    assert(h1.slots().contains_key(k));
    assert forall|p: IVec2| #![trigger h2.at(p)] h2.at(p).len() > 0 && h2.slots()[h2.at(p)[0]].generation == g
        implies pend.contains(p) || settled(h2, ws, p, g, no_out) by {
        if p != q {
            lemma_key_of_injective(p, q);
            assert(h1.table().contains_key(key_of(p)));
            assert(!h1.at(p).contains(k)) by {
                if h1.at(p).contains(k) {
                    let m = choose|m: int| 0 <= m < h1.at(p).len() && h1.at(p)[m] == k;
                    assert(key_of(h1.slots()[h1.table()[key_of(p)][m]].pos) == key_of(p));
                }
            }
            assert(h1.slots()[h1.at(p)[0]] == h2.slots()[h2.at(p)[0]]);
            if !pend.contains(p) {
                assert(settled(h1, ws, p, g, no_out));
                assert forall|i: int| 0 <= i < h2.at(p).len() implies {
                    &&& h2.slots()[#[trigger] h2.at(p)[i]].generation == g
                    &&& no_out ==> !h2.slots()[h2.at(p)[i]].output
                    &&& (wire_next(ws, h2.slots()[h2.at(p)[i]].owner, h2.at(p)[i]) matches Some(r) ==> touched(h2, r, g))
                } by {
                    assert(h1.at(p)[i] != k);
                    let w = wire_next(ws, h1.slots()[h1.at(p)[i]].owner, h1.at(p)[i]);
                    if let Some(r) = w {
                        assert(touched(h1, r, g));
                        if h1.at(r).len() > 0 {
                            assert(h1.table().contains_key(key_of(r)));
                            assert(h1.slots().contains_key(h1.at(r)[0]));
                        }
                    }
                }
            }
        }
    }
    assert forall|p: IVec2, i: int| #![trigger h2.at(p)[i]] 0 <= i < h2.at(p).len() && h2.slots()[h2.at(p)[i]].generation == g
        implies h2.slots()[h2.at(p)[0]].generation == g by {
        assert(h1.table().contains_key(key_of(p)));
        assert(h1.slots().contains_key(h1.at(p)[0]));
        if h1.slots()[h1.at(p)[i]].generation == g {
            assert(h1.slots()[h1.at(p)[0]].generation == g);
        } else {
            assert(h1.at(p)[i] == k);
            assert(key_of(h1.slots()[h1.table()[key_of(p)][i]].pos) == key_of(p));
            assert(key_of(h1.slots()[h1.table()[key_of(q)][j]].pos) == key_of(q));
            lemma_key_of_injective(p, q);
            assert(p == q);
            if j > 0 {
                assert(h1.slots()[h1.at(q)[0]].generation == g);
            }
        }
    }
}

/// A step through the net depends only on the lookup table and the owners.
pub proof fn lemma_step_layout(h1: NodeHandler, h2: NodeHandler, ws: Map<WireKey, Wire>, q: IVec2, p: IVec2)
    requires
        h1.wf(),
        h1.table() == h2.table(),
        same_layout(h1.slots(), h2.slots()),
    ensures
        net_step(h1, ws, q, p) == net_step(h2, ws, q, p),
{
    if h1.at(q).len() > 0 {
        assert(h1.table().contains_key(key_of(q)));
    }
    assert forall|i: int| 0 <= i < h1.at(q).len() implies h1.slots()[h1.at(q)[i]].owner == h2.slots()[h2.at(q)[i]].owner by {
        assert(h1.slots().contains_key(h1.table()[key_of(q)][i]));
    }
    if net_step(h1, ws, q, p) {
        let i = choose|i: int| 0 <= i < h1.at(q).len() && #[trigger] wire_next(ws, h1.slots()[h1.at(q)[i]].owner, h1.at(q)[i]) == Some(p);
        assert(wire_next(ws, h2.slots()[h2.at(q)[i]].owner, h2.at(q)[i]) == Some(p));
    }
    if net_step(h2, ws, q, p) {
        let i = choose|i: int| 0 <= i < h2.at(q).len() && #[trigger] wire_next(ws, h2.slots()[h2.at(q)[i]].owner, h2.at(q)[i]) == Some(p);
        assert(wire_next(ws, h1.slots()[h1.at(q)[i]].owner, h1.at(q)[i]) == Some(p));
    }
}

/// Connection depends only on the lookup table and the owners.
pub proof fn lemma_reach_layout(h1: NodeHandler, h2: NodeHandler, ws: Map<WireKey, Wire>, from: IVec2, p: IVec2)
    requires
        h1.wf(),
        h1.table() == h2.table(),
        same_layout(h1.slots(), h2.slots()),
    ensures
        reachable(h1, ws, from, p) == reachable(h2, ws, from, p),
{
    if reachable(h1, ws, from, p) {
        let ps = choose|ps: Seq<IVec2>| #[trigger] is_walk(h1, ws, from, p, ps);
        assert forall|i: int| 0 <= i < ps.len() - 1 implies net_step(h2, ws, #[trigger] ps[i], ps[i + 1]) by {
            lemma_step_layout(h1, h2, ws, ps[i], ps[i + 1]);
        }
        assert(is_walk(h2, ws, from, p, ps));
    }
    if reachable(h2, ws, from, p) {
        let ps = choose|ps: Seq<IVec2>| #[trigger] is_walk(h2, ws, from, p, ps);
        assert forall|i: int| 0 <= i < ps.len() - 1 implies net_step(h1, ws, #[trigger] ps[i], ps[i + 1]) by {
            lemma_step_layout(h1, h2, ws, ps[i], ps[i + 1]);
        }
        assert(is_walk(h1, ws, from, p, ps));
    }
}

/// A point is connected to itself.
pub proof fn lemma_reach_self(h: NodeHandler, ws: Map<WireKey, Wire>, from: IVec2)
    ensures
        reachable(h, ws, from, from),
{
    assert(is_walk(h, ws, from, from, seq![from]));
}

/// What is connected to a point one step on is connected to the point.
pub proof fn lemma_reach_prepend(h: NodeHandler, ws: Map<WireKey, Wire>, from: IVec2, nb: IVec2, p: IVec2)
    requires
        net_step(h, ws, from, nb),
        reachable(h, ws, nb, p),
    ensures
        reachable(h, ws, from, p),
{
    let ps = choose|ps: Seq<IVec2>| #[trigger] is_walk(h, ws, nb, p, ps);
    let qs = seq![from] + ps;
    assert forall|i: int| 0 <= i < qs.len() - 1 implies net_step(h, ws, #[trigger] qs[i], qs[i + 1]) by {
        if i > 0 {
            assert(qs[i] == ps[i - 1] && qs[i + 1] == ps[i]);
            assert(net_step(h, ws, ps[i - 1], ps[(i - 1) + 1]));
        } else {
            assert(qs[1] == ps[0]);
        }
    }
    assert(qs.last() == ps.last());
    assert(is_walk(h, ws, from, p, qs));
}

/// With nothing being walked, consistent marks that have visited the start
/// of a walk have settled each point along it.
proof fn lemma_closed_walk(h: NodeHandler, ws: Map<WireKey, Wire>, g: u32, from: IVec2, p: IVec2, ps: Seq<IVec2>, j: int, no_out: bool)
    requires
        closed_pass(h, ws, g, Set::empty(), no_out),
        touched(h, from, g),
        is_walk(h, ws, from, p, ps),
        0 <= j < ps.len(),
    ensures
        touched(h, ps[j], g),
        settled(h, ws, ps[j], g, no_out),
    decreases j,
{
    reveal(closed_pass);
    if j > 0 {
        lemma_closed_walk(h, ws, g, from, p, ps, j - 1, no_out);
        let q = ps[j - 1];
        assert(net_step(h, ws, ps[j - 1], ps[(j - 1) + 1]));
        let i = choose|i: int| 0 <= i < h.at(q).len() && #[trigger] wire_next(ws, h.slots()[h.at(q)[i]].owner, h.at(q)[i]) == Some(ps[j]);
        assert(touched(h, ps[j], g));
    }
    let r = ps[j];
    if h.at(r).len() > 0 {
        assert(h.at(r).len() > 0 && h.slots()[h.at(r)[0]].generation == g);
    }
}

/// With nothing being walked, consistent marks that have visited `from`
/// have settled every point connected to it.
pub proof fn lemma_closed_reach(h: NodeHandler, ws: Map<WireKey, Wire>, g: u32, from: IVec2, p: IVec2, no_out: bool)
    requires
        closed_pass(h, ws, g, Set::empty(), no_out),
        touched(h, from, g),
        reachable(h, ws, from, p),
    ensures
        touched(h, p, g),
        settled(h, ws, p, g, no_out),
{
    let ps = choose|ps: Seq<IVec2>| #[trigger] is_walk(h, ws, from, p, ps);
    lemma_closed_walk(h, ws, g, from, p, ps, ps.len() - 1, no_out);
}

/// Where a walk of the nodes on `at` stands, from `h0` to `h`: the first
/// `m` nodes are marked, the rest as they were (when the marks were
/// consistent), the first `l` are no outputs and lead to visited points,
/// nodes on points visited before the walk are untouched, and with
/// consistent marks at the start they stay consistent.
#[verifier::opaque]
spec fn walk_inv(h0: NodeHandler, h: NodeHandler, ws: Map<WireKey, Wire>, g: u32, pend: Set<IVec2>, at: IVec2,
    m: int, l: int, cl: bool, no_out: bool, um: bool) -> bool {
    let list = h0.at(at);
    let s0 = h0.slots();
    &&& 0 <= l <= m <= list.len()
    &&& m > 0 ==> s0[list[0]].generation != g
    &&& (cl || um) && (m > 0 || s0[list[0]].generation != g) ==> forall|j: int| m <= j < list.len()
        ==> #[trigger] h.slots()[list[j]] == s0[list[j]] && s0[list[j]].generation != g
    &&& forall|j: int| 0 <= j < m ==> #[trigger] h.slots()[list[j]].generation == g
    &&& forall|j: int| 0 <= j < l ==> (no_out ==> !s0[#[trigger] list[j]].output)
        && (wire_next(ws, s0[list[j]].owner, list[j]) matches Some(r) ==> touched(h, r, g))
    &&& forall|p: IVec2, j: int| touched(h0, p, g) && 0 <= j < h0.at(p).len()
        ==> h.slots()[#[trigger] h0.at(p)[j]] == s0[h0.at(p)[j]]
    &&& cl ==> closed_pass(h, ws, g, pend.insert(at), no_out)
}

proof fn lemma_walk_start(h0: NodeHandler, ws: Map<WireKey, Wire>, g: u32, pend: Set<IVec2>, at: IVec2, cl: bool, no_out: bool, um: bool)
    requires
        h0.wf(),
        h0.at(at).len() > 0,
        cl ==> closed_pass(h0, ws, g, pend, no_out),
        um ==> forall|j: int| 0 <= j < h0.at(at).len() ==> #[trigger] h0.slots()[h0.at(at)[j]].generation != g,
    ensures
        walk_inv(h0, h0, ws, g, pend, at, 0, 0, cl, no_out, um),
{
    reveal(walk_inv);
    if cl {
        lemma_closed_more_pend(h0, ws, g, pend, at, no_out);
        if h0.slots()[h0.at(at)[0]].generation != g {
            reveal(closed_pass);
            assert forall|j: int| 0 <= j < h0.at(at).len() implies #[trigger] h0.slots()[h0.at(at)[j]].generation != g by {}
        }
    }
}

proof fn lemma_walk_mark(h0: NodeHandler, h1: NodeHandler, h2: NodeHandler, ws: Map<WireKey, Wire>, g: u32,
    pend: Set<IVec2>, at: IVec2, i: int, n: Node, cl: bool, no_out: bool, um: bool)
    requires
        h0.wf(),
        h1.wf(),
        h1.table() == h0.table(),
        h2.table() == h0.table(),
        walk_inv(h0, h1, ws, g, pend, at, i, i, cl, no_out, um),
        0 <= i < h0.at(at).len(),
        i == 0 ==> h1.slots() == h0.slots(),
        h1.slots()[h0.at(at)[i]].generation != g,
        h2.slots() == h1.slots().insert(h0.at(at)[i], n),
        n.generation == g,
        n.owner == h1.slots()[h0.at(at)[i]].owner,
        n.output == h1.slots()[h0.at(at)[i]].output,
    ensures
        walk_inv(h0, h2, ws, g, pend, at, i + 1, i, cl, no_out, um),
{
    reveal(walk_inv);
    let list = h0.at(at);
    let s0 = h0.slots();
    let k = list[i];
    assert(h0.table().contains_key(key_of(at)));
    if cl {
        assert forall|m: int| 0 <= m < i implies h1.slots()[#[trigger] h1.at(at)[m]].generation == g by {
            assert(h1.at(at)[m] == list[m]);
        }
        lemma_closed_mark(h1, h2, ws, g, pend.insert(at), at, i, n, no_out);
    }
    assert forall|j: int| 0 <= j < i implies (no_out ==> !s0[#[trigger] list[j]].output)
        && (wire_next(ws, s0[list[j]].owner, list[j]) matches Some(r) ==> touched(h2, r, g)) by {
        if let Some(r) = wire_next(ws, s0[list[j]].owner, list[j]) {
            assert(touched(h1, r, g));
            if h1.at(r).len() > 0 {
                assert(h1.table().contains_key(key_of(r)));
                assert(h1.slots().contains_key(h1.at(r)[0]));
            }
        }
    }
    assert forall|p: IVec2, j: int| touched(h0, p, g) && 0 <= j < h0.at(p).len()
        implies h2.slots()[#[trigger] h0.at(p)[j]] == s0[h0.at(p)[j]] by {
        assert(h0.table().contains_key(key_of(p)));
        if h0.at(p)[j] == k {
            assert(key_of(s0[h0.table()[key_of(p)][j]].pos) == key_of(p));
            assert(key_of(s0[h0.table()[key_of(at)][i]].pos) == key_of(at));
            lemma_key_of_injective(p, at);
            assert(s0[h0.at(p)[0]].generation != g);
        }
    }
    assert(h0.table()[key_of(at)].no_duplicates());
    assert forall|j: int| 0 <= j < i + 1 implies #[trigger] h2.slots()[list[j]].generation == g by {}
    if (cl || um) && (i + 1 > 0 || s0[list[0]].generation != g) {
        assert forall|j: int| i + 1 <= j < list.len() implies #[trigger] h2.slots()[list[j]] == s0[list[j]] && s0[list[j]].generation != g by {
            assert(list[j] != k);
        }
    }
}

proof fn lemma_walk_link(h0: NodeHandler, h2: NodeHandler, h3: NodeHandler, ws: Map<WireKey, Wire>, g: u32,
    pend: Set<IVec2>, at: IVec2, i: int, cl: bool, no_out: bool, um: bool)
    requires
        h0.wf(),
        h2.wf(),
        h2.table() == h0.table(),
        h3.table() == h0.table(),
        walk_inv(h0, h2, ws, g, pend, at, i + 1, i, cl, no_out, um),
        pass_step(h2.slots(), h3.slots(), g),
        forall|p: IVec2, j: int| touched(h2, p, g) && 0 <= j < h2.at(p).len()
            ==> h3.slots()[#[trigger] h2.at(p)[j]] == h2.slots()[h2.at(p)[j]],
        no_out ==> !h0.slots()[h0.at(at)[i]].output,
        wire_next(ws, h0.slots()[h0.at(at)[i]].owner, h0.at(at)[i]) matches Some(r) ==> touched(h3, r, g),
        cl ==> closed_pass(h3, ws, g, pend.insert(at), no_out),
    ensures
        walk_inv(h0, h3, ws, g, pend, at, i + 1, i + 1, cl, no_out, um),
{
    reveal(walk_inv);
    let list = h0.at(at);
    let s0 = h0.slots();
    assert(h0.table().contains_key(key_of(at)));
    assert(touched(h2, at, g));
    assert forall|j: int| 0 <= j < list.len() implies #[trigger] h3.slots()[list[j]] == h2.slots()[list[j]] by {
        assert(h2.at(at)[j] == list[j]);
    }
    assert forall|j: int| 0 <= j < i + 1 implies (no_out ==> !s0[#[trigger] list[j]].output)
        && (wire_next(ws, s0[list[j]].owner, list[j]) matches Some(r) ==> touched(h3, r, g)) by {
        if j < i {
            if let Some(r) = wire_next(ws, s0[list[j]].owner, list[j]) {
                lemma_touched_stays(h2, h3, r, g);
            }
        }
    }
    assert forall|p: IVec2, j: int| touched(h0, p, g) && 0 <= j < h0.at(p).len()
        implies h3.slots()[#[trigger] h0.at(p)[j]] == s0[h0.at(p)[j]] by {
        assert(h0.table().contains_key(key_of(p)));
        assert(h0.slots().contains_key(h0.at(p)[0]));
        assert(h2.slots()[h0.at(p)[0]] == s0[h0.at(p)[0]]);
        assert(touched(h2, p, g));
        assert(h2.at(p)[j] == h0.at(p)[j]);
    }
}

proof fn lemma_walk_done(h0: NodeHandler, h: NodeHandler, ws: Map<WireKey, Wire>, g: u32, pend: Set<IVec2>, at: IVec2, cl: bool, no_out: bool, um: bool)
    requires
        h0.wf(),
        h.table() == h0.table(),
        same_layout(h0.slots(), h.slots()),
        walk_inv(h0, h, ws, g, pend, at, h0.at(at).len() as int, h0.at(at).len() as int, cl, no_out, um),
        cl,
        h0.at(at).len() > 0,
    ensures
        closed_pass(h, ws, g, pend, no_out),
{
    reveal(walk_inv);
    let list = h0.at(at);
    assert(h0.table().contains_key(key_of(at)));
    assert forall|m: int| 0 <= m < h.at(at).len() implies {
        &&& h.slots()[#[trigger] h.at(at)[m]].generation == g
        &&& no_out ==> !h.slots()[h.at(at)[m]].output
        &&& (wire_next(ws, h.slots()[h.at(at)[m]].owner, h.at(at)[m]) matches Some(r) ==> touched(h, r, g))
    } by {
        assert(h.at(at)[m] == list[m]);
        assert(h0.slots().contains_key(list[m]));
    }
    lemma_closed_settle(h, ws, g, pend, at, no_out);
}

/// Walks the net through `at` in the pass numbered `g`, marking the nodes
/// it visits, until it meets a driving node (`true`) or a node this pass
/// has already visited (`false`). Wires are followed to their other end;
/// components are not entered. `pend` holds the points still being walked
/// by the callers.
fn driven_from(nodes: &mut NodeHandler, wires: &Wires, comps: &CompArena, at: IVec2, g: u32, Ghost(pend): Ghost<Set<IVec2>>) -> (r: bool)
    requires
        old(nodes).wf(),
    ensures
        final(nodes).wf(),
        final(nodes).table() == old(nodes).table(),
        pass_step(old(nodes).slots(), final(nodes).slots(), g),
        forall|k: NodeKey| #[trigger] old(nodes).slots().contains_key(k)
            ==> final(nodes).slots()[k].logic_lvl == old(nodes).slots()[k].logic_lvl,
        r ==> exists|k: NodeKey| #[trigger] final(nodes).slots().contains_key(k)
            && final(nodes).slots()[k].output && final(nodes).slots()[k].generation == g,
        r ==> output_reachable(*old(nodes), wires.slots(), at),
        old(nodes).at(at).len() > 0 ==> final(nodes).slots()[old(nodes).at(at)[0]].generation == g,
        old(nodes).at(at).len() > 0 && old(nodes).slots()[old(nodes).at(at)[0]].output ==> r,
        forall|p: IVec2, j: int| touched(*old(nodes), p, g) && 0 <= j < old(nodes).at(p).len()
            ==> final(nodes).slots()[#[trigger] old(nodes).at(p)[j]] == old(nodes).slots()[old(nodes).at(p)[j]],
        !r && closed_pass(*old(nodes), wires.slots(), g, pend, true) ==> closed_pass(*final(nodes), wires.slots(), g, pend, true),
    decreases unmarked(old(nodes).slots(), g).len(),
{
    let ghost s0 = nodes.slots();
    let ghost h0 = *nodes;
    let ghost ws = wires.slots();
    let ghost cl = closed_pass(h0, ws, g, pend, true);
    let list = match nodes.node_lookup.get(&at.lookup_key()) {
        Some(v) => copy_keys(v),
        None => {
            return false;
        },
    };
    assert(list@ == nodes.at(at));
    proof {
        assert(nodes.table().contains_key(key_of(at)));
        lemma_walk_start(h0, ws, g, pend, at, cl, true, false);
    }
    let mut i: usize = 0;
    while i < list.len()
        invariant
            0 <= i <= list@.len(),
            list@.len() > 0,
            list@ == old(nodes).at(at),
            s0 == old(nodes).slots(),
            h0 == *old(nodes),
            h0.wf(),
            ws == wires.slots(),
            cl == closed_pass(h0, ws, g, pend, true),
            nodes.wf(),
            nodes.table() == old(nodes).table(),
            pass_step(s0, nodes.slots(), g),
            forall|k: NodeKey| #[trigger] s0.contains_key(k) ==> nodes.slots()[k].logic_lvl == s0[k].logic_lvl,
            i == 0 ==> nodes.slots() == s0,
            i > 0 ==> nodes.slots()[list@[0]].generation == g,
            i > 0 ==> !s0[list@[0]].output,
            walk_inv(h0, *nodes, ws, g, pend, at, i as int, i as int, cl, true, false),
        decreases list@.len() - i,
    {
        let k = list[i];
        let ghost s1 = nodes.slots();
        let ghost h1 = *nodes;
        proof {
            assert(nodes.table().contains_key(key_of(at)));
            assert(s1.contains_key(k));
        }
        let node = *nodes.node_storage.get(k).unwrap();
        let oldgen = node.generation;
        {
            let nm = nodes.node_storage.get_mut(k);
            nm.generation = g;
        }
        let ghost s2 = nodes.slots();
        let ghost h2 = *nodes;
        proof {
            assert(s2 == s1.insert(k, Node { generation: g, ..s1[k] }));
            assert(s2.dom() =~= s1.dom());
            assert(same_layout(s1, s2));
            lemma_wf_layout(*old(nodes), *nodes);
            if oldgen != g {
                assert(unmarked(s2, g) =~= unmarked(s1, g).remove(k));
                assert(s1[k] == s0[k]);
                assert(unmarked(s1, g).contains(k));
                vstd::set_lib::lemma_len_subset(unmarked(s1, g), unmarked(s0, g));
                assert(unmarked(s2, g).len() < unmarked(s0, g).len());
                lemma_walk_mark(h0, h1, h2, ws, g, pend, at, i as int, s2[k], cl, true, false);
            } else {
                assert(s2 == s1);
            }
        }
        if node.output {
            proof {
                lemma_reach_self(h0, ws, at);
                assert(s0[list@[i as int]].output);
                assert(output_reachable(h0, ws, at));
                reveal(walk_inv);
            }
            return true;
        }
        if oldgen == g {
            proof {
                reveal(walk_inv);
                if cl {
                    assert(i == 0);
                    assert(nodes.slots() == s0);
                    lemma_closed_same(h0, *nodes, ws, g, pend, true);
                }
            }
            return false;
        }
        let mut called = false;
        match node.owner {
            Some(ElemIndex::Wire(w)) => {
                match wires.wires.get(w) {
                    Some(wire) => {
                        if Some(k) == wire.startnode || Some(k) == wire.endnode {
                            let nb = if Some(k) == wire.startnode { wire.end } else { wire.start };
                            proof {
                                assert(wire_next(ws, s0[k].owner, k) == Some(nb));
                                assert(net_step(h0, ws, at, nb));
                                assert(cl ==> closed_pass(h2, ws, g, pend.insert(at), true)) by { reveal(walk_inv); }
                            }
                            let found = driven_from(nodes, wires, comps, nb, g, Ghost(pend.insert(at)));
                            if found {
                                proof {
                                    lemma_reach_layout(h0, h2, ws, at, nb);
                                    let (p, m) = choose|p: IVec2, m: int| #[trigger] reachable(h2, ws, nb, p) && 0 <= m < h2.at(p).len()
                                        && #[trigger] h2.slots()[h2.at(p)[m]].output;
                                    lemma_reach_layout(h0, h2, ws, nb, p);
                                    lemma_reach_prepend(h0, ws, at, nb, p);
                                    assert(h2.table().contains_key(key_of(p)));
                                    assert(h0.slots().contains_key(h0.table()[key_of(p)][m]));
                                    assert(h0.slots()[h0.at(p)[m]].output);
                                    assert(reachable(h0, ws, at, p));
                                    assert(output_reachable(h0, ws, at));
                                    reveal(walk_inv);
                                    assert forall|p: IVec2, j: int| touched(h0, p, g) && 0 <= j < h0.at(p).len()
                                        implies nodes.slots()[#[trigger] h0.at(p)[j]] == s0[h0.at(p)[j]] by {
                                        assert(h0.table().contains_key(key_of(p)));
                                        assert(h0.slots().contains_key(h0.at(p)[0]));
                                        assert(touched(h2, p, g));
                                        assert(h2.at(p)[j] == h0.at(p)[j]);
                                    }
                                }
                                return true;
                            }
                            proof {
                                lemma_walk_link(h0, h2, *nodes, ws, g, pend, at, i as int, cl, true, false);
                            }
                            called = true;
                        }
                    },
                    None => {},
                }
            },
            _ => {},
        }
        proof {
            if !called {
                assert(wire_next(ws, s0[k].owner, k) is None);
                assert(cl ==> closed_pass(h2, ws, g, pend.insert(at), true)) by { reveal(walk_inv); }
                lemma_walk_link(h0, h2, *nodes, ws, g, pend, at, i as int, cl, true, false);
            }
            assert(nodes.slots()[list@[0]].generation == g) by { reveal(walk_inv); }
        }
        i = i + 1;
    }
    proof {
        if cl {
            lemma_walk_done(h0, *nodes, ws, g, pend, at, cl, true, false);
        }
        reveal(walk_inv);
    }
    false
}

/// The number of the pass after `g` (wrapping around).
pub open spec fn next_pass(g: u32) -> u32 {
    if g == u32::MAX { 0 } else { (g + 1) as u32 }
}

/// Starts a new pass.
pub fn bump(generation: &mut u32)
    ensures
        *final(generation) == next_pass(*old(generation)),
{
    if *generation == u32::MAX {
        *generation = 0;
    } else {
        *generation = *generation + 1;
    }
}

/// Whether the net through `at` is driven by some output. With `inc_gen`
/// the walk starts a new pass (the pass number wraps around); otherwise
/// it continues pass `*generation`.
pub fn check_driven(
    nodes: &mut NodeHandler,
    wires: &Wires,
    comps: &CompArena,
    at: IVec2,
    generation: &mut u32,
    inc_gen: bool,
) -> (r: bool)
    requires
        old(nodes).wf(),
    ensures
        *final(generation) == (if inc_gen { next_pass(*old(generation)) } else { *old(generation) }),
        final(nodes).wf(),
        final(nodes).table() == old(nodes).table(),
        pass_step(old(nodes).slots(), final(nodes).slots(), *final(generation)),
        forall|k: NodeKey| #[trigger] old(nodes).slots().contains_key(k)
            ==> final(nodes).slots()[k].logic_lvl == old(nodes).slots()[k].logic_lvl,
        r ==> exists|k: NodeKey| #[trigger] final(nodes).slots().contains_key(k)
            && final(nodes).slots()[k].output && final(nodes).slots()[k].generation == *final(generation),
        old(nodes).at(at).len() > 0 ==> final(nodes).slots()[old(nodes).at(at)[0]].generation == *final(generation),
        old(nodes).at(at).len() > 0 && old(nodes).slots()[old(nodes).at(at)[0]].output ==> r,
        r ==> output_reachable(*old(nodes), wires.slots(), at),
        inc_gen && fresh(old(nodes).slots(), next_pass(*old(generation)))
            ==> (r <==> output_reachable(*old(nodes), wires.slots(), at)),
{
    if inc_gen {
        bump(generation);
    }
    let ghost h0 = *nodes;
    let ghost ws = wires.slots();
    proof {
        if inc_gen && fresh(h0.slots(), *generation) {
            lemma_fresh_closed(h0, ws, *generation, true);
        }
    }
    let r = driven_from(nodes, wires, comps, at, *generation, Ghost(Set::empty()));
    proof {
        if inc_gen && fresh(h0.slots(), *generation) && !r {
            let g = *generation;
            if h0.at(at).len() > 0 {
                assert(h0.table().contains_key(key_of(at)));
            }
            assert(touched(*nodes, at, g));
            if output_reachable(h0, ws, at) {
                let (p, m) = choose|p: IVec2, m: int| #[trigger] reachable(h0, ws, at, p) && 0 <= m < h0.at(p).len()
                    && #[trigger] h0.slots()[h0.at(p)[m]].output;
                lemma_reach_layout(h0, *nodes, ws, at, p);
                lemma_closed_reach(*nodes, ws, g, at, p, true);
                assert(h0.table().contains_key(key_of(p)));
                assert(h0.slots().contains_key(h0.at(p)[m]));
                assert(nodes.at(p)[m] == h0.at(p)[m]);
                assert(!nodes.slots()[nodes.at(p)[m]].output);
            }
        }
    }
    r
}

/// Whether an output is connected depends only on the lookup table and
/// the layout of the nodes.
pub proof fn lemma_output_reach_layout(h1: NodeHandler, h2: NodeHandler, ws: Map<WireKey, Wire>, at: IVec2)
    requires
        h1.wf(),
        h1.table() == h2.table(),
        same_layout(h1.slots(), h2.slots()),
    ensures
        output_reachable(h1, ws, at) == output_reachable(h2, ws, at),
{
    if output_reachable(h1, ws, at) {
        let (p, m) = choose|p: IVec2, m: int| #[trigger] reachable(h1, ws, at, p) && 0 <= m < h1.at(p).len()
            && #[trigger] h1.slots()[h1.at(p)[m]].output;
        lemma_reach_layout(h1, h2, ws, at, p);
        assert(h1.table().contains_key(key_of(p)));
        assert(h1.slots().contains_key(h1.at(p)[m]));
        assert(h2.slots()[h2.at(p)[m]].output);
    }
    if output_reachable(h2, ws, at) {
        let (p, m) = choose|p: IVec2, m: int| #[trigger] reachable(h2, ws, at, p) && 0 <= m < h2.at(p).len()
            && #[trigger] h2.slots()[h2.at(p)[m]].output;
        lemma_reach_layout(h1, h2, ws, at, p);
        assert(h1.table().contains_key(key_of(p)));
        assert(h1.slots().contains_key(h1.at(p)[m]));
        assert(h1.slots()[h1.at(p)[m]].output);
    }
}

/// Every node on every point connected to `at` in `h0` stands at level
/// `ll` in `h1`, marked by pass `g`.
pub open spec fn net_set(h0: NodeHandler, h1: NodeHandler, ws: Map<WireKey, Wire>, at: IVec2, ll: LL, g: u32) -> bool {
    forall|p: IVec2, i: int| #[trigger] reachable(h0, ws, at, p) && 0 <= i < h0.at(p).len() ==> {
        &&& h1.slots()[#[trigger] h0.at(p)[i]].logic_lvl == ll
        &&& h1.slots()[h0.at(p)[i]].generation == g
    }
}

proof fn lemma_net_set(h0: NodeHandler, hm: NodeHandler, h1: NodeHandler, ws: Map<WireKey, Wire>, at: IVec2, ll: LL, g: u32)
    requires
        h0.wf(),
        hm.wf(),
        hm.table() == h0.table(),
        h1.table() == h0.table(),
        same_layout(h0.slots(), hm.slots()),
        same_layout(hm.slots(), h1.slots()),
        fresh(hm.slots(), g),
        closed_pass(h1, ws, g, Set::empty(), false),
        hm.at(at).len() > 0 ==> h1.slots()[hm.at(at)[0]].generation == g,
        forall|k: NodeKey| #[trigger] hm.slots().contains_key(k) && h1.slots()[k] != hm.slots()[k]
            ==> h1.slots()[k].logic_lvl == ll,
    ensures
        net_set(h0, h1, ws, at, ll, g),
{
    assert forall|p: IVec2, i: int| #[trigger] reachable(h0, ws, at, p) && 0 <= i < h0.at(p).len() implies {
        &&& h1.slots()[#[trigger] h0.at(p)[i]].logic_lvl == ll
        &&& h1.slots()[h0.at(p)[i]].generation == g
    } by {
        assert(same_layout(h0.slots(), h1.slots()));
        lemma_reach_layout(h0, h1, ws, at, p);
        lemma_closed_reach(h1, ws, g, at, p, false);
        assert(h1.at(p)[i] == h0.at(p)[i]);
        assert(h0.table().contains_key(key_of(p)));
        assert(hm.slots().contains_key(h0.at(p)[i]));
        assert(hm.slots()[h0.at(p)[i]].generation != g);
    }
}

/// Sets the net through `at` to `ll` and lets the components it feeds
/// recompute. With `inc_gen` this starts a new pass (the pass number wraps
/// around); and when `ll` is undefined it first checks whether the net is
/// driven, and if it is, leaves the levels as they are.
pub fn set_nodes(
    nodes: &mut NodeHandler,
    wires: &Wires,
    comps: &CompArena,
    at: IVec2,
    generation: &mut u32,
    ll: LL,
    inc_gen: bool,
)
    requires
        old(nodes).wf(),
    ensures
        final(nodes).wf(),
        final(nodes).table() == old(nodes).table(),
        same_layout(old(nodes).slots(), final(nodes).slots()),
        !(ll == LL::U && inc_gen) ==> {
            &&& *final(generation) == (if inc_gen { next_pass(*old(generation)) } else { *old(generation) })
            &&& pass_step(old(nodes).slots(), final(nodes).slots(), *final(generation))
            &&& old(nodes).at(at).len() > 0 ==> final(nodes).slots()[old(nodes).at(at)[0]].generation == *final(generation)
            &&& old(nodes).at(at).len() > 0 && old(nodes).slots()[old(nodes).at(at)[0]].generation != *final(generation)
                ==> final(nodes).slots()[old(nodes).at(at)[0]].logic_lvl == ll
        },
        ll == LL::U && inc_gen ==> {
            ||| {
                &&& *final(generation) == next_pass(*old(generation))
                &&& forall|k: NodeKey| #[trigger] old(nodes).slots().contains_key(k)
                    ==> final(nodes).slots()[k].logic_lvl == old(nodes).slots()[k].logic_lvl
                &&& exists|k: NodeKey| #[trigger] final(nodes).slots().contains_key(k)
                    && final(nodes).slots()[k].output && final(nodes).slots()[k].generation == *final(generation)
            }
            ||| {
                &&& *final(generation) == next_pass(next_pass(*old(generation)))
                &&& old(nodes).at(at).len() > 0 ==> final(nodes).slots()[old(nodes).at(at)[0]].logic_lvl == LL::U
                    && final(nodes).slots()[old(nodes).at(at)[0]].generation == *final(generation)
            }
        },
        ll != LL::U && inc_gen && fresh(old(nodes).slots(), next_pass(*old(generation)))
            && comp_free(*old(nodes), wires.slots(), at)
            ==> net_set(*old(nodes), *final(nodes), wires.slots(), at, ll, *final(generation)),
        ll == LL::U && inc_gen && fresh(old(nodes).slots(), next_pass(*old(generation)))
            && fresh(old(nodes).slots(), next_pass(next_pass(*old(generation))))
            && comp_free(*old(nodes), wires.slots(), at) ==> {
            &&& output_reachable(*old(nodes), wires.slots(), at) ==> forall|k: NodeKey| #[trigger] old(nodes).slots().contains_key(k)
                ==> final(nodes).slots()[k].logic_lvl == old(nodes).slots()[k].logic_lvl
            &&& !output_reachable(*old(nodes), wires.slots(), at)
                ==> net_set(*old(nodes), *final(nodes), wires.slots(), at, LL::U, *final(generation))
        },
        inc_gen ==> *final(generation) == next_pass(*old(generation)) || *final(generation) == next_pass(next_pass(*old(generation))),
        inc_gen ==> forall|k: NodeKey| #[trigger] old(nodes).slots().contains_key(k) && final(nodes).slots()[k] != old(nodes).slots()[k]
            ==> final(nodes).slots()[k].generation == next_pass(*old(generation)) || final(nodes).slots()[k].generation == *final(generation),
{
    let ghost h0 = *nodes;
    let ghost g0 = *generation;
    let ghost ws = wires.slots();
    if ll == LL::U && inc_gen {
        if check_driven(nodes, wires, comps, at, generation, true) {
            return;
        }
        proof {
            assert(nodes.at(at) == h0.at(at));
            assert(next_pass(*generation) != *generation);
        }
    }
    let ghost hm = *nodes;
    let ghost g1 = *generation;
    if inc_gen {
        bump(generation);
    }
    let ghost g = *generation;
    proof {
        if inc_gen && fresh(h0.slots(), next_pass(g0)) && comp_free(h0, ws, at)
            && (ll != LL::U || fresh(h0.slots(), next_pass(next_pass(g0)))) {
            assert(same_layout(h0.slots(), hm.slots()));
            assert forall|k: NodeKey| #[trigger] hm.slots().contains_key(k) implies hm.slots()[k].generation != g by {
                if ll == LL::U {
                    assert(next_pass(g1) != g1);
                    if hm.slots()[k] != h0.slots()[k] {
                        assert(hm.slots()[k].generation == g1);
                    }
                }
            }
            lemma_fresh_closed(hm, ws, g, false);
            lemma_comp_free_layout(h0, hm, ws, at);
        }
    }
    propagate(nodes, wires, comps, at, *generation, ll, Ghost(Set::empty()));
    proof {
        if inc_gen {
            assert forall|k: NodeKey| #[trigger] h0.slots().contains_key(k) && nodes.slots()[k] != h0.slots()[k]
                implies nodes.slots()[k].generation == next_pass(g0) || nodes.slots()[k].generation == g by {
                if hm.slots()[k] != h0.slots()[k] {
                    assert(hm.slots()[k].generation == g1);
                }
            }
        }
        if inc_gen && fresh(h0.slots(), next_pass(g0)) && comp_free(h0, ws, at)
            && (ll != LL::U || fresh(h0.slots(), next_pass(next_pass(g0)))) {
            if hm.at(at).len() > 0 {
                assert(hm.table().contains_key(key_of(at)));
            }
            lemma_net_set(h0, hm, *nodes, ws, at, ll, g);
        }
    }
}

/// Marks node `k` as visited by pass `g` with level `l`, keeping the rest.
pub open spec fn mark(n: Node, l: LL, g: u32) -> Node {
    Node { logic_lvl: l, generation: g, ..n }
}

/// No node on a point connected to `at` belongs to a component.
pub open spec fn comp_free(h: NodeHandler, ws: Map<WireKey, Wire>, at: IVec2) -> bool {
    forall|p: IVec2, i: int| #[trigger] reachable(h, ws, at, p) && 0 <= i < h.at(p).len()
        ==> !(h.slots()[#[trigger] h.at(p)[i]].owner matches Some(ElemIndex::Comp(_)))
}

/// Freedom from components carries one step on, and across passes.
proof fn lemma_comp_free_step(h0: NodeHandler, h2: NodeHandler, ws: Map<WireKey, Wire>, at: IVec2, nb: IVec2)
    requires
        h0.wf(),
        h0.table() == h2.table(),
        same_layout(h0.slots(), h2.slots()),
        net_step(h0, ws, at, nb),
        comp_free(h0, ws, at),
    ensures
        comp_free(h2, ws, nb),
{
    assert forall|p: IVec2, i: int| #[trigger] reachable(h2, ws, nb, p) && 0 <= i < h2.at(p).len()
        implies !(h2.slots()[#[trigger] h2.at(p)[i]].owner matches Some(ElemIndex::Comp(_))) by {
        lemma_reach_layout(h0, h2, ws, nb, p);
        lemma_reach_prepend(h0, ws, at, nb, p);
        assert(h0.table().contains_key(key_of(p)));
        assert(h0.slots().contains_key(h0.at(p)[i]));
        assert(h0.at(p)[i] == h2.at(p)[i]);
    }
}

/// Freedom from components depends only on the lookup table and the owners.
proof fn lemma_comp_free_layout(h0: NodeHandler, h2: NodeHandler, ws: Map<WireKey, Wire>, at: IVec2)
    requires
        h0.wf(),
        h0.table() == h2.table(),
        same_layout(h0.slots(), h2.slots()),
        comp_free(h0, ws, at),
    ensures
        comp_free(h2, ws, at),
{
    assert forall|p: IVec2, i: int| #[trigger] reachable(h2, ws, at, p) && 0 <= i < h2.at(p).len()
        implies !(h2.slots()[#[trigger] h2.at(p)[i]].owner matches Some(ElemIndex::Comp(_))) by {
        lemma_reach_layout(h0, h2, ws, at, p);
        assert(h0.table().contains_key(key_of(p)));
        assert(h0.slots().contains_key(h0.at(p)[i]));
        assert(h0.at(p)[i] == h2.at(p)[i]);
    }
}

/// Drives level `ll` from the point `at` through the network in the pass
/// numbered `g`. The nodes on `at` are taken in order: a node already
/// visited by this pass ends the walk; otherwise it takes `ll`, and the walk
/// goes on to the other end of its wire, or its component recomputes and
/// drives its output. `pend` holds the points still being walked by the
/// callers. Where no component is connected to `at`, every node the walk
/// changes takes `ll`.
pub fn propagate(nodes: &mut NodeHandler, wires: &Wires, comps: &CompArena, at: IVec2, g: u32, ll: LL, Ghost(pend): Ghost<Set<IVec2>>)
    requires
        old(nodes).wf(),
    ensures
        final(nodes).wf(),
        final(nodes).table() == old(nodes).table(),
        pass_step(old(nodes).slots(), final(nodes).slots(), g),
        old(nodes).at(at).len() > 0 ==> final(nodes).slots()[old(nodes).at(at)[0]].generation == g,
        old(nodes).at(at).len() > 0 && old(nodes).slots()[old(nodes).at(at)[0]].generation != g
            ==> final(nodes).slots()[old(nodes).at(at)[0]].logic_lvl == ll,
        forall|p: IVec2, j: int| touched(*old(nodes), p, g) && 0 <= j < old(nodes).at(p).len()
            ==> final(nodes).slots()[#[trigger] old(nodes).at(p)[j]] == old(nodes).slots()[old(nodes).at(p)[j]],
        comp_free(*old(nodes), wires.slots(), at) ==> forall|k: NodeKey| #[trigger] old(nodes).slots().contains_key(k)
            && final(nodes).slots()[k] != old(nodes).slots()[k] ==> final(nodes).slots()[k].logic_lvl == ll,
        comp_free(*old(nodes), wires.slots(), at) && closed_pass(*old(nodes), wires.slots(), g, pend, false)
            ==> closed_pass(*final(nodes), wires.slots(), g, pend, false),
        (forall|j: int| 0 <= j < old(nodes).at(at).len() ==> #[trigger] old(nodes).slots()[old(nodes).at(at)[j]].generation != g)
            ==> forall|j: int| 0 <= j < old(nodes).at(at).len() ==> {
                &&& final(nodes).slots()[#[trigger] old(nodes).at(at)[j]].logic_lvl == ll
                &&& final(nodes).slots()[old(nodes).at(at)[j]].generation == g
            },
    decreases unmarked(old(nodes).slots(), g).len(), 0nat,
{
    let ghost s0 = nodes.slots();
    let ghost h0 = *nodes;
    let ghost ws = wires.slots();
    let ghost lv = comp_free(h0, ws, at);
    let ghost cl = lv && closed_pass(h0, ws, g, pend, false);
    let ghost um = forall|j: int| 0 <= j < h0.at(at).len() ==> #[trigger] h0.slots()[h0.at(at)[j]].generation != g;
    let list = match nodes.node_lookup.get(&at.lookup_key()) {
        Some(v) => copy_keys(v),
        None => {
            return;
        },
    };
    assert(list@ == nodes.at(at));
    proof {
        assert(nodes.table().contains_key(key_of(at)));
        lemma_walk_start(h0, ws, g, pend, at, cl, false, um);
        lemma_reach_self(h0, ws, at);
    }
    let mut i: usize = 0;
    while i < list.len()
        invariant
            0 <= i <= list@.len(),
            list@.len() > 0,
            list@ == old(nodes).at(at),
            s0 == old(nodes).slots(),
            h0 == *old(nodes),
            h0.wf(),
            ws == wires.slots(),
            lv == comp_free(h0, ws, at),
            cl == (lv && closed_pass(h0, ws, g, pend, false)),
            lv ==> reachable(h0, ws, at, at),
            nodes.wf(),
            nodes.table() == old(nodes).table(),
            pass_step(s0, nodes.slots(), g),
            i == 0 ==> nodes.slots() == s0,
            i > 0 ==> nodes.slots()[list@[0]].generation == g,
            i > 0 && s0[list@[0]].generation != g ==> nodes.slots()[list@[0]].logic_lvl == ll,
            lv ==> forall|k: NodeKey| #[trigger] s0.contains_key(k) && nodes.slots()[k] != s0[k] ==> nodes.slots()[k].logic_lvl == ll,
            walk_inv(h0, *nodes, ws, g, pend, at, i as int, i as int, cl, false, um),
            um == (forall|j: int| 0 <= j < h0.at(at).len() ==> #[trigger] h0.slots()[h0.at(at)[j]].generation != g),
            um ==> forall|j: int| 0 <= j < i ==> #[trigger] nodes.slots()[list@[j]].logic_lvl == ll,
        decreases list@.len() - i,
    {
        let k = list[i];
        let ghost s1 = nodes.slots();
        let ghost h1 = *nodes;
        proof {
            assert(nodes.table().contains_key(key_of(at)));
            assert(s1.contains_key(k));
        }
        let node = *nodes.node_storage.get(k).unwrap();
        if node.generation == g {
            proof {
                reveal(walk_inv);
                if um {
                    assert(s0[list@[i as int]].generation != g);
                }
                if cl {
                    assert(i == 0);
                    lemma_closed_same(h0, *nodes, ws, g, pend, false);
                }
            }
            return;
        }
        {
            let nm = nodes.node_storage.get_mut(k);
            nm.logic_lvl = ll;
            nm.generation = g;
        }
        let ghost s2 = nodes.slots();
        let ghost h2 = *nodes;
        proof {
            assert(s2 == s1.insert(k, mark(s1[k], ll, g)));
            assert(unmarked(s2, g) =~= unmarked(s1, g).remove(k));
            assert(s1[k] == s0[k]) by { reveal(walk_inv); }
            assert(unmarked(s1, g).contains(k));
            vstd::set_lib::lemma_len_subset(unmarked(s1, g), unmarked(s0, g));
            assert(unmarked(s2, g).len() < unmarked(s0, g).len());
            assert(s2.dom() =~= s1.dom());
            assert(same_layout(s1, s2));
            lemma_wf_layout(*old(nodes), *nodes);
            lemma_walk_mark(h0, h1, h2, ws, g, pend, at, i as int, s2[k], cl, false, um);
            if um {
                assert forall|j: int| 0 <= j < i + 1 implies #[trigger] h2.slots()[list@[j]].logic_lvl == ll by {
                    if j < i {
                        assert(h0.table()[key_of(at)].no_duplicates());
                        assert(list@[j] != k);
                    }
                }
            }
        }
        let mut linked = false;
        match node.owner {
            Some(ElemIndex::Wire(w)) => {
                match wires.wires.get(w) {
                    Some(wire) => {
                        if Some(k) == wire.startnode || Some(k) == wire.endnode {
                            let nb = if Some(k) == wire.startnode { wire.end } else { wire.start };
                            proof {
                                assert(wire_next(ws, s0[k].owner, k) == Some(nb));
                                assert(net_step(h0, ws, at, nb));
                                if lv {
                                    lemma_comp_free_step(h0, h2, ws, at, nb);
                                }
                                assert(cl ==> closed_pass(h2, ws, g, pend.insert(at), false)) by { reveal(walk_inv); }
                            }
                            propagate(nodes, wires, comps, nb, g, ll, Ghost(pend.insert(at)));
                            proof {
                                lemma_walk_link(h0, h2, *nodes, ws, g, pend, at, i as int, cl, false, um);
                            }
                            linked = true;
                        }
                    },
                    None => {},
                }
            },
            Some(ElemIndex::Comp(c)) => {
                proof {
                    if lv {
                        assert(h0.at(at)[i as int] == k);
                        assert(!(h0.slots()[h0.at(at)[i as int]].owner matches Some(ElemIndex::Comp(_))));
                    }
                }
                match comps.get(c) {
                    Some(comp) => {
                        comp.update(nodes, wires, comps, g);
                    },
                    None => {},
                }
                proof {
                    assert(wire_next(ws, s0[k].owner, k) is None);
                    lemma_walk_link(h0, h2, *nodes, ws, g, pend, at, i as int, cl, false, um);
                }
                linked = true;
            },
            None => {},
        }
        proof {
            if !linked {
                assert(wire_next(ws, s0[k].owner, k) is None);
                assert(cl ==> closed_pass(h2, ws, g, pend.insert(at), false)) by { reveal(walk_inv); }
                lemma_walk_link(h0, h2, *nodes, ws, g, pend, at, i as int, cl, false, um);
            }
            assert(nodes.slots()[list@[0]].generation == g) by { reveal(walk_inv); }
            if um {
                assert(touched(h2, at, g));
                assert forall|j: int| 0 <= j < i + 1 implies #[trigger] nodes.slots()[list@[j]].logic_lvl == ll by {
                    assert(h2.at(at)[j] == list@[j]);
                }
            }
        }
        i = i + 1;
    }
    proof {
        if cl {
            lemma_walk_done(h0, *nodes, ws, g, pend, at, cl, false, um);
        }
        reveal(walk_inv);
    }
}

} // verus!
