//! Three-valued logic levels.
use vstd::prelude::*;

verus! {

/// A logic level: high, low, or undefined (a floating net).
#[derive(PartialEq, Eq, Structural, Debug, Clone, Copy)]
pub enum LL {
    H,
    L,
    U,
}

/// Conjunction: undefined if either side is undefined.
pub open spec fn spec_and(a: LL, b: LL) -> LL {
    if a == LL::U || b == LL::U {
        LL::U
    } else if a == LL::H && b == LL::H {
        LL::H
    } else {
        LL::L
    }
}

/// Disjunction: undefined if either side is undefined.
pub open spec fn spec_or(a: LL, b: LL) -> LL {
    if a == LL::U || b == LL::U {
        LL::U
    } else if a == LL::H || b == LL::H {
        LL::H
    } else {
        LL::L
    }
}

/// Exclusive or: undefined if either side is undefined.
pub open spec fn spec_xor(a: LL, b: LL) -> LL {
    if a == LL::U || b == LL::U {
        LL::U
    } else if a != b {
        LL::H
    } else {
        LL::L
    }
}

/// Negation: swaps high and low, keeps undefined.
pub open spec fn spec_not(a: LL) -> LL {
    match a {
        LL::H => LL::L,
        LL::L => LL::H,
        LL::U => LL::U,
    }
}

/// The level that stands for a boolean.
pub open spec fn spec_from_bool(b: bool) -> LL {
    if b { LL::H } else { LL::L }
}

/// The colour (0xAABBGGRR) in which a level is drawn.
pub open spec fn spec_color(a: LL) -> u32 {
    match a {
        LL::H => 0xff3517F7u32,
        LL::L => 0xffD4EA41u32,
        LL::U => 0xffffffffu32,
    }
}

impl LL {
    /// The colour in which this level is drawn.
    pub fn to_color(self) -> (c: u32)
        ensures
            c == spec_color(self),
    {
        match self {
            LL::H => 0xff3517F7,
            LL::L => 0xffD4EA41,
            LL::U => 0xffffffff,
        }
    }

    /// The boolean that a defined level stands for.
    pub fn to_bool(self) -> (b: bool)
        requires
            self != LL::U,
        ensures
            b == (self == LL::H),
            spec_from_bool(b) == self,
    {
        match self {
            LL::H => true,
            _ => false,
        }
    }

    /// The level that stands for `b`.
    pub fn from_bool(b: bool) -> (l: LL)
        ensures
            l == spec_from_bool(b),
    {
        if b { LL::H } else { LL::L }
    }

    pub fn and(self, rhs: LL) -> (r: LL)
        ensures
            r == spec_and(self, rhs),
    {
        if self == LL::U || rhs == LL::U {
            LL::U
        } else if self == LL::H && rhs == LL::H {
            LL::H
        } else {
            LL::L
        }
    }

    pub fn or(self, rhs: LL) -> (r: LL)
        ensures
            r == spec_or(self, rhs),
    {
        if self == LL::U || rhs == LL::U {
            LL::U
        } else if self == LL::H || rhs == LL::H {
            LL::H
        } else {
            LL::L
        }
    }

    pub fn xor(self, rhs: LL) -> (r: LL)
        ensures
            r == spec_xor(self, rhs),
    {
        if self == LL::U || rhs == LL::U {
            LL::U
        } else {
            LL::from_bool(self != rhs)
        }
    }

    pub fn negate(self) -> (r: LL)
        ensures
            r == spec_not(self),
    {
        match self {
            LL::H => LL::L,
            LL::L => LL::H,
            LL::U => LL::U,
        }
    }
}

impl From<bool> for LL {
    fn from(value: bool) -> (l: LL) {
        LL::from_bool(value)
    }
}

impl vstd::std_specs::convert::FromSpecImpl<bool> for LL {
    open spec fn obeys_from_spec() -> bool {
        true
    }

    open spec fn from_spec(v: bool) -> LL {
        spec_from_bool(v)
    }
}

impl core::ops::BitAnd for LL {
    type Output = LL;

    fn bitand(self, rhs: LL) -> (r: LL) {
        self.and(rhs)
    }
}

impl vstd::std_specs::ops::BitAndSpecImpl for LL {
    open spec fn obeys_bitand_spec() -> bool {
        true
    }

    open spec fn bitand_req(self, rhs: LL) -> bool {
        true
    }

    open spec fn bitand_spec(self, rhs: LL) -> LL {
        spec_and(self, rhs)
    }
}


impl core::ops::BitOr for LL {
    type Output = LL;

    fn bitor(self, rhs: LL) -> (r: LL) {
        self.or(rhs)
    }
}

impl vstd::std_specs::ops::BitOrSpecImpl for LL {
    open spec fn obeys_bitor_spec() -> bool {
        true
    }

    open spec fn bitor_req(self, rhs: LL) -> bool {
        true
    }

    open spec fn bitor_spec(self, rhs: LL) -> LL {
        spec_or(self, rhs)
    }
}

impl core::ops::BitXor for LL {
    type Output = LL;

    fn bitxor(self, rhs: LL) -> (r: LL) {
        self.xor(rhs)
    }
}

impl vstd::std_specs::ops::BitXorSpecImpl for LL {
    open spec fn obeys_bitxor_spec() -> bool {
        true
    }

    open spec fn bitxor_req(self, rhs: LL) -> bool {
        true
    }

    open spec fn bitxor_spec(self, rhs: LL) -> LL {
        spec_xor(self, rhs)
    }
}

impl core::ops::Not for LL {
    type Output = LL;

    fn not(self) -> (r: LL) {
        self.negate()
    }
}

impl vstd::std_specs::ops::NotSpecImpl for LL {
    open spec fn obeys_not_spec() -> bool {
        true
    }

    open spec fn not_req(self) -> bool {
        true
    }

    open spec fn not_spec(self) -> LL {
        spec_not(self)
    }
}

impl core::ops::Neg for LL {
    type Output = LL;

    fn neg(self) -> (r: LL) {
        self.negate()
    }
}

impl vstd::std_specs::ops::NegSpecImpl for LL {
    open spec fn obeys_neg_spec() -> bool {
        true
    }

    open spec fn neg_req(self) -> bool {
        true
    }

    open spec fn neg_spec(self) -> LL {
        spec_not(self)
    }
}

/// The combined level of two things tied together: a defined level wins
/// over an undefined one; two different defined levels are a short circuit.
pub open spec fn spec_merge(a: LL, b: LL) -> LL {
    if a == LL::U { b } else { a }
}

/// Merging keeps a defined level and otherwise takes the other one; two
/// levels conflict exactly when both are defined and differ.
pub proof fn lemma_merge(a: LL, b: LL)
    ensures
        a != LL::U ==> spec_merge(a, b) == a,
        a == LL::U ==> spec_merge(a, b) == b,
        conflicts(a, b) <==> (a != LL::U && b != LL::U && a != b),
        !conflicts(LL::U, b) && !conflicts(a, LL::U) && !conflicts(a, a),
{
}

/// Two levels conflict when both are defined and differ.
pub open spec fn conflicts(a: LL, b: LL) -> bool {
    a != LL::U && b != LL::U && a != b
}

impl LL {
    /// Takes `other` if this level is undefined; returns `false` (and keeps
    /// this level) when both are defined and differ.
    pub fn merge(&mut self, other: LL) -> (ok: bool)
        ensures
            ok == !conflicts(*old(self), other),
            *final(self) == spec_merge(*old(self), other),
    {
        if *self == LL::U {
            *self = other;
            true
        } else if other == LL::U || *self == other {
            true
        } else {
            false
        }
    }
}

/// The logic levels form a Kleene-style algebra: the laws below hold for
/// every level.
pub proof fn lemma_logic_laws(a: LL, b: LL, c: LL)
    ensures
        spec_and(a, b) == spec_and(b, a),
        spec_or(a, b) == spec_or(b, a),
        spec_xor(a, b) == spec_xor(b, a),
        spec_and(spec_and(a, b), c) == spec_and(a, spec_and(b, c)),
        spec_or(spec_or(a, b), c) == spec_or(a, spec_or(b, c)),
        spec_not(spec_not(a)) == a,
        spec_not(spec_and(a, b)) == spec_or(spec_not(a), spec_not(b)),
        spec_not(spec_or(a, b)) == spec_and(spec_not(a), spec_not(b)),
        spec_and(a, LL::U) == LL::U,
        spec_or(a, LL::U) == LL::U,
        spec_xor(a, LL::U) == LL::U,
        spec_and(a, LL::H) == a,
        spec_or(a, LL::L) == a,
        a != LL::U ==> spec_xor(a, a) == LL::L,
{
}

/// On defined levels the operations agree with the boolean ones.
pub proof fn lemma_logic_matches_bool(x: bool, y: bool)
    ensures
        spec_and(spec_from_bool(x), spec_from_bool(y)) == spec_from_bool(x && y),
        spec_or(spec_from_bool(x), spec_from_bool(y)) == spec_from_bool(x || y),
        spec_xor(spec_from_bool(x), spec_from_bool(y)) == spec_from_bool(x != y),
        spec_not(spec_from_bool(x)) == spec_from_bool(!x),
{
}

/// Merging never loses a defined level, and merging is idempotent.
pub proof fn lemma_merge_laws(a: LL, b: LL)
    ensures
        spec_merge(a, a) == a,
        spec_merge(a, LL::U) == a,
        spec_merge(LL::U, b) == b,
        !conflicts(a, b) ==> spec_merge(a, b) == spec_merge(b, a),
        spec_merge(a, b) == LL::U <==> (a == LL::U && b == LL::U),
{
}

} // verus!
