//! The generational arenas that hold the nodes, wires and components.
//!
//! Each arena is a `typed_generational_arena::StandardArena` held in a
//! private field; its contents are modelled as a map from keys to items.
//! A key is the slot and the generation under which the arena stored an
//! item. The functions below are the trusted boundary to the arena crate:
//! each makes one call and states what the crate's source does.
use vstd::prelude::*;
use crate::nodes::Node;
use crate::wires::Wire;
use crate::component::Component;

verus! {

/// Key of a node: the arena slot and the generation it was stored under.
#[derive(PartialEq, Eq, Structural, Debug, Clone, Copy, Hash)]
pub struct NodeKey {
    pub slot: usize,
    pub gen: usize,
}

/// Key of a wire: the arena slot and the generation it was stored under.
#[derive(PartialEq, Eq, Structural, Debug, Clone, Copy, Hash)]
pub struct WireKey {
    pub slot: usize,
    pub gen: usize,
}

/// Key of a component: the arena slot and the generation it was stored under.
#[derive(PartialEq, Eq, Structural, Debug, Clone, Copy, Hash)]
pub struct CompKey {
    pub slot: usize,
    pub gen: usize,
}

/// The node arena.
#[verifier::external_body]
pub struct NodeArena {
    items: typed_generational_arena::StandardArena<Node>,
}

/// The wire arena.
#[verifier::external_body]
pub struct WireArena {
    items: typed_generational_arena::StandardArena<Wire>,
}

/// The component arena.
#[verifier::external_body]
pub struct CompArena {
    items: typed_generational_arena::StandardArena<Component>,
}

/// What the node arena holds, by key.
pub uninterp spec fn node_slots(a: NodeArena) -> Map<NodeKey, Node>;

/// What the wire arena holds, by key.
pub uninterp spec fn wire_slots(a: WireArena) -> Map<WireKey, Wire>;

/// What the component arena holds, by key.
pub uninterp spec fn comp_slots(a: CompArena) -> Map<CompKey, Component>;

/// The keys are listed by ascending slot, so no two share a slot.
pub open spec fn node_keys_listed(ks: Seq<NodeKey>, m: Map<NodeKey, Node>) -> bool {
    &&& ks.to_set() == m.dom()
    &&& ks.len() == m.dom().len()
    &&& forall|i: int, j: int| 0 <= i < j < ks.len() ==> ks[i].slot < ks[j].slot
    &&& forall|i: int| 0 <= i < ks.len() ==> ks[i].gen > 0
}

pub open spec fn wire_keys_listed(ks: Seq<WireKey>, m: Map<WireKey, Wire>) -> bool {
    &&& ks.to_set() == m.dom()
    &&& ks.len() == m.dom().len()
    &&& forall|i: int, j: int| 0 <= i < j < ks.len() ==> ks[i].slot < ks[j].slot
    &&& forall|i: int| 0 <= i < ks.len() ==> ks[i].gen > 0
}

pub open spec fn comp_keys_listed(ks: Seq<CompKey>, m: Map<CompKey, Component>) -> bool {
    &&& ks.to_set() == m.dom()
    &&& ks.len() == m.dom().len()
    &&& forall|i: int, j: int| 0 <= i < j < ks.len() ==> ks[i].slot < ks[j].slot
    &&& forall|i: int| 0 <= i < ks.len() ==> ks[i].gen > 0
}

impl NodeArena {
    /// `StandardArena::new`: an empty arena.
    #[verifier::external_body]
    pub fn new() -> (arena: NodeArena)
        ensures
            node_slots(arena) .dom().is_empty(),
    {
        NodeArena { items: typed_generational_arena::StandardArena::new() }
    }

    /// `Arena::insert`: stores `v` in a free slot under the current
    /// generation (a nonzero number) and returns that key.
    #[verifier::external_body]
    pub fn insert(&mut self, v: Node) -> (k: NodeKey)
        ensures
            !node_slots(*old(self)).contains_key(k),
            forall|o: NodeKey| node_slots(*old(self)).contains_key(o) ==> o.slot != k.slot,
            k.gen > 0,
            node_slots(*final(self)) == node_slots(*old(self)).insert(k, v),
    {
        let i = self.items.insert(v);
        NodeKey { slot: i.arr_idx(), gen: i.gen().to_idx() }
    }

    /// `Arena::remove`: takes the item stored under `k` out, if any.
    #[verifier::external_body]
    pub fn remove(&mut self, k: NodeKey) -> (r: Option<Node>)
        ensures
            r == (if node_slots(*old(self)).contains_key(k) {
                Some(node_slots(*old(self))[k])
            } else {
                None::<Node>
            }),
            node_slots(*final(self)) == node_slots(*old(self)).remove(k),
    {
        match typed_generational_arena::NonzeroGeneration::from_idx(k.gen) {
            Some(g) => self.items.remove(typed_generational_arena::Index::new(k.slot, g)),
            None => None,
        }
    }

    /// `Arena::get`: the item stored under `k`, if any.
    #[verifier::external_body]
    pub fn get(&self, k: NodeKey) -> (r: Option<&Node>)
        ensures
            r == (if node_slots(*self).contains_key(k) {
                Some(&node_slots(*self)[k])
            } else {
                None::<&Node>
            }),
    {
        match typed_generational_arena::NonzeroGeneration::from_idx(k.gen) {
            Some(g) => self.items.get(typed_generational_arena::Index::new(k.slot, g)),
            None => None,
        }
    }

    /// `Arena::index_mut`: the item stored under `k`, to be changed in place.
    #[verifier::external_body]
    pub fn get_mut(&mut self, k: NodeKey) -> (r: &mut Node)
        requires
            node_slots(*old(self)).contains_key(k),
            k.gen > 0,
        ensures
            *r == node_slots(*old(self))[k],
            node_slots(*final(self)) == node_slots(*old(self)).insert(k, *final(r)),
    {
        let g = typed_generational_arena::NonzeroGeneration::from_idx(k.gen).unwrap();
        &mut self.items[typed_generational_arena::Index::new(k.slot, g)]
    }

    /// `Arena::len`: how many items the arena holds.
    #[verifier::external_body]
    pub fn len(&self) -> (n: usize)
        ensures
            n as nat == node_slots(*self).dom().len(),
    {
        self.items.len()
    }

    /// `Arena::iter`, keys only: every key, by ascending slot.
    #[verifier::external_body]
    pub fn keys(&self) -> (ks: Vec<NodeKey>)
        ensures
            node_keys_listed(ks@, node_slots(*self)),
    {
        self.items.iter().map(|(i, _)| NodeKey { slot: i.arr_idx(), gen: i.gen().to_idx() }).collect()
    }
}

impl WireArena {
    /// `StandardArena::new`: an empty arena.
    #[verifier::external_body]
    pub fn new() -> (arena: WireArena)
        ensures
            wire_slots(arena) .dom().is_empty(),
    {
        WireArena { items: typed_generational_arena::StandardArena::new() }
    }

    /// `Arena::insert`: stores `v` in a free slot under the current
    /// generation (a nonzero number) and returns that key.
    #[verifier::external_body]
    pub fn insert(&mut self, v: Wire) -> (k: WireKey)
        ensures
            !wire_slots(*old(self)).contains_key(k),
            forall|o: WireKey| wire_slots(*old(self)).contains_key(o) ==> o.slot != k.slot,
            k.gen > 0,
            wire_slots(*final(self)) == wire_slots(*old(self)).insert(k, v),
    {
        let i = self.items.insert(v);
        WireKey { slot: i.arr_idx(), gen: i.gen().to_idx() }
    }

    /// `Arena::remove`: takes the item stored under `k` out, if any.
    #[verifier::external_body]
    pub fn remove(&mut self, k: WireKey) -> (r: Option<Wire>)
        ensures
            r == (if wire_slots(*old(self)).contains_key(k) {
                Some(wire_slots(*old(self))[k])
            } else {
                None::<Wire>
            }),
            wire_slots(*final(self)) == wire_slots(*old(self)).remove(k),
    {
        match typed_generational_arena::NonzeroGeneration::from_idx(k.gen) {
            Some(g) => self.items.remove(typed_generational_arena::Index::new(k.slot, g)),
            None => None,
        }
    }

    /// `Arena::get`: the item stored under `k`, if any.
    #[verifier::external_body]
    pub fn get(&self, k: WireKey) -> (r: Option<&Wire>)
        ensures
            r == (if wire_slots(*self).contains_key(k) {
                Some(&wire_slots(*self)[k])
            } else {
                None::<&Wire>
            }),
    {
        match typed_generational_arena::NonzeroGeneration::from_idx(k.gen) {
            Some(g) => self.items.get(typed_generational_arena::Index::new(k.slot, g)),
            None => None,
        }
    }

    /// `Arena::index_mut`: the item stored under `k`, to be changed in place.
    #[verifier::external_body]
    pub fn get_mut(&mut self, k: WireKey) -> (r: &mut Wire)
        requires
            wire_slots(*old(self)).contains_key(k),
            k.gen > 0,
        ensures
            *r == wire_slots(*old(self))[k],
            wire_slots(*final(self)) == wire_slots(*old(self)).insert(k, *final(r)),
    {
        let g = typed_generational_arena::NonzeroGeneration::from_idx(k.gen).unwrap();
        &mut self.items[typed_generational_arena::Index::new(k.slot, g)]
    }

    /// `Arena::len`: how many items the arena holds.
    #[verifier::external_body]
    pub fn len(&self) -> (n: usize)
        ensures
            n as nat == wire_slots(*self).dom().len(),
    {
        self.items.len()
    }

    /// `Arena::iter`, keys only: every key, by ascending slot.
    #[verifier::external_body]
    pub fn keys(&self) -> (ks: Vec<WireKey>)
        ensures
            wire_keys_listed(ks@, wire_slots(*self)),
    {
        self.items.iter().map(|(i, _)| WireKey { slot: i.arr_idx(), gen: i.gen().to_idx() }).collect()
    }
}

impl CompArena {
    /// `StandardArena::new`: an empty arena.
    #[verifier::external_body]
    pub fn new() -> (arena: CompArena)
        ensures
            comp_slots(arena) .dom().is_empty(),
    {
        CompArena { items: typed_generational_arena::StandardArena::new() }
    }

    /// `Arena::insert`: stores `v` in a free slot under the current
    /// generation (a nonzero number) and returns that key.
    #[verifier::external_body]
    pub fn insert(&mut self, v: Component) -> (k: CompKey)
        ensures
            !comp_slots(*old(self)).contains_key(k),
            forall|o: CompKey| comp_slots(*old(self)).contains_key(o) ==> o.slot != k.slot,
            k.gen > 0,
            comp_slots(*final(self)) == comp_slots(*old(self)).insert(k, v),
    {
        let i = self.items.insert(v);
        CompKey { slot: i.arr_idx(), gen: i.gen().to_idx() }
    }

    /// `Arena::remove`: takes the item stored under `k` out, if any.
    #[verifier::external_body]
    pub fn remove(&mut self, k: CompKey) -> (r: Option<Component>)
        ensures
            r == (if comp_slots(*old(self)).contains_key(k) {
                Some(comp_slots(*old(self))[k])
            } else {
                None::<Component>
            }),
            comp_slots(*final(self)) == comp_slots(*old(self)).remove(k),
    {
        match typed_generational_arena::NonzeroGeneration::from_idx(k.gen) {
            Some(g) => self.items.remove(typed_generational_arena::Index::new(k.slot, g)),
            None => None,
        }
    }

    /// `Arena::get`: the item stored under `k`, if any.
    #[verifier::external_body]
    pub fn get(&self, k: CompKey) -> (r: Option<&Component>)
        ensures
            r == (if comp_slots(*self).contains_key(k) {
                Some(&comp_slots(*self)[k])
            } else {
                None::<&Component>
            }),
    {
        match typed_generational_arena::NonzeroGeneration::from_idx(k.gen) {
            Some(g) => self.items.get(typed_generational_arena::Index::new(k.slot, g)),
            None => None,
        }
    }

    /// `Arena::index_mut`: the item stored under `k`, to be changed in place.
    #[verifier::external_body]
    pub fn get_mut(&mut self, k: CompKey) -> (r: &mut Component)
        requires
            comp_slots(*old(self)).contains_key(k),
            k.gen > 0,
        ensures
            *r == comp_slots(*old(self))[k],
            comp_slots(*final(self)) == comp_slots(*old(self)).insert(k, *final(r)),
    {
        let g = typed_generational_arena::NonzeroGeneration::from_idx(k.gen).unwrap();
        &mut self.items[typed_generational_arena::Index::new(k.slot, g)]
    }

    /// `Arena::len`: how many items the arena holds.
    #[verifier::external_body]
    pub fn len(&self) -> (n: usize)
        ensures
            n as nat == comp_slots(*self).dom().len(),
    {
        self.items.len()
    }

    /// `Arena::iter`, keys only: every key, by ascending slot.
    #[verifier::external_body]
    pub fn keys(&self) -> (ks: Vec<CompKey>)
        ensures
            comp_keys_listed(ks@, comp_slots(*self)),
    {
        self.items.iter().map(|(i, _)| CompKey { slot: i.arr_idx(), gen: i.gen().to_idx() }).collect()
    }
}

} // verus!
