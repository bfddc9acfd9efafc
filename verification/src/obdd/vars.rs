//! A variable order kept as positions on the `u64` line.
//!
//! Each variable holds a position; a variable comes before another when its position is
//! smaller. A new variable placed right after an existing one takes the midpoint between that
//! variable's position and the position of its current successor, so no existing position ever
//! moves.

use vstd::prelude::*;

verus! {

/// A variable of an [Order], named by its creation index (starting from 1).
#[derive(Clone, Copy, PartialEq, Eq, Structural, Hash, Debug)]
pub struct Var(u32);

impl Var {
    /// A variable is never the start slot `0`.
    #[verifier::type_invariant]
    spec fn nonzero(self) -> bool {
        self.0 != 0
    }

    /// The creation index of the variable.
    pub closed spec fn id(self) -> u32 {
        self.0
    }

    /// The negative literal of the variable.
    pub fn not(self) -> (r: Lit)
        requires
            self.id() <= i32::MAX,
        ensures
            r.code() == -(self.id() as int),
            r.code() != 0,
    {
        proof {
            use_type_invariant(&self);
        }
        Lit::from_var(self).not()
    }
}

/// A literal: a variable, positive when asserted and negative when negated.
#[derive(Clone, Copy, PartialEq, Eq, Structural, Hash, Debug)]
pub struct Lit(i32);

impl Lit {
    /// A literal names a variable, so its code is never `0`, and its opposite exists.
    #[verifier::type_invariant]
    spec fn nonzero(self) -> bool {
        self.0 != 0 && self.0 != i32::MIN
    }

    /// The signed code of the literal: the variable's index, negated for a negative literal.
    pub closed spec fn code(self) -> int {
        self.0 as int
    }

    /// The positive literal of `var`.
    pub fn from_var(var: Var) -> (r: Lit)
        requires
            var.id() <= i32::MAX,
        ensures
            r.code() == var.id(),
            r.code() != 0,
    {
        proof {
            use_type_invariant(&var);
        }
        Lit(var.0 as i32)
    }

    /// The opposite literal.
    pub fn not(self) -> (r: Lit)
        ensures
            r.code() == -self.code(),
            r.code() != 0,
    {
        proof {
            use_type_invariant(&self);
        }
        Lit(-self.0)
    }

    /// The variable of the literal.
    pub fn var(self) -> (r: Var)
        ensures
            r.id() != 0,
            r.id() == if self.code() < 0 {
                -self.code()
            } else {
                self.code()
            },
    {
        proof {
            use_type_invariant(&self);
        }
        if self.0 < 0 {
            Var((-(self.0 as i64)) as u32)
        } else {
            Var(self.0 as u32)
        }
    }

    /// Whether the literal asserts its variable.
    pub fn value(self) -> (r: bool)
        ensures
            r == (self.code() > 0),
            r == !(self.code() < 0),
    {
        proof {
            use_type_invariant(&self);
        }
        self.0 > 0
    }
}

/// A variable is determined by its creation index.
pub proof fn lemma_id_determines(v: Var, w: Var)
    requires
        v.id() == w.id(),
    ensures
        v == w,
{
}

/// A literal is determined by its code; so negating a literal twice gives it back, and the
/// positive literal of a variable has that variable and the value `true`.
pub proof fn lemma_code_determines(l: Lit, m: Lit)
    requires
        l.code() == m.code(),
    ensures
        l == m,
{
}

/// A position on the line of the order.
#[derive(Default, Clone, Copy, PartialEq, Eq, Structural, PartialOrd, Ord, Hash, Debug)]
pub struct Position(pub u64);

/// The slot of an optional variable: its index, or `0` for the start of the order.
pub open spec fn slot(var: Option<Var>) -> int {
    match var {
        None => 0,
        Some(v) => v.id() as int,
    }
}

/// A variable order. Slot `0` stands for the start of the order, at position `0`; slot `i`
/// holds the variable created `i`-th.
pub struct Order {
    positions: Vec<Position>,
    subsequents: Vec<Position>,
    max: Option<Var>,
}

impl Order {
    /// The position of each slot.
    pub closed spec fn positions(&self) -> Seq<u64> {
        self.positions@.map_values(|p: Position| p.0)
    }

    /// The position of the successor of each slot, or `u64::MAX` for the last one.
    pub closed spec fn subsequents(&self) -> Seq<u64> {
        self.subsequents@.map_values(|p: Position| p.0)
    }

    /// The last variable of the order, if any.
    pub closed spec fn last(&self) -> Option<Var> {
        self.max
    }

    /// There is room for a variable right after `var`.
    pub open spec fn room_after(&self, var: Option<Var>) -> bool {
        self.subsequents()[slot(var)] - self.positions()[slot(var)] >= 2
    }

    /// Positions are distinct, and each slot records the position of its successor: no
    /// position lies strictly between a slot and its successor.
    pub closed spec fn wf(&self) -> bool {
        let p = self.positions();
        let s = self.subsequents();
        &&& p.len() == s.len()
        &&& 1 <= p.len() <= u32::MAX
        &&& p[0] == 0
        &&& forall|v: int| 0 <= v < p.len() ==> #[trigger] p[v] < s[v]
        &&& forall|v: int, w: int|
            0 <= v < p.len() && 0 <= w < p.len() && #[trigger] p[w] > #[trigger] p[v] ==> p[w] >= s[v]
        &&& forall|v: int, w: int|
            0 <= v < p.len() && 0 <= w < p.len() && v != w ==> #[trigger] p[v] != #[trigger] p[w]
        &&& match self.max {
            None => p.len() == 1,
            Some(m) => 1 <= m.id() < p.len() && forall|v: int|
                0 <= v < p.len() ==> #[trigger] p[v] <= p[m.id() as int],
        }
    }

    /// An order with no variable.
    pub fn new() -> (r: Order)
        ensures
            r.wf(),
            r.positions() == seq![0u64],
            r.subsequents() == seq![u64::MAX],
            r.last() is None,
            r.room_after(None),
    {
        let mut positions: Vec<Position> = Vec::new();
        positions.push(Position(0));
        let mut subsequents: Vec<Position> = Vec::new();
        subsequents.push(Position(u64::MAX));
        let r = Order { positions, subsequents, max: None };
        proof {
            assert(r.positions() =~= seq![0u64]);
            assert(r.subsequents() =~= seq![u64::MAX]);
        }
        r
    }

    /// The position of `var`, or of the start of the order for `None`.
    pub fn position(&self, var: Option<Var>) -> (r: Position)
        requires
            self.wf(),
            0 <= slot(var) < self.positions().len(),
        ensures
            r.0 == self.positions()[slot(var)],
    {
        match var {
            None => self.positions[0],
            Some(v) => self.positions[v.0 as usize],
        }
    }

    /// The last variable of the order, if any.
    pub fn max(&self) -> (r: Option<Var>)
        requires
            self.wf(),
        ensures
            r == self.last(),
            r is None <==> self.positions().len() == 1,
            r matches Some(m) ==> 1 <= m.id() < self.positions().len() && forall|v: int|
                0 <= v < self.positions().len() ==> #[trigger] self.positions()[v]
                    <= self.positions()[m.id() as int],
    {
        self.max
    }

    /// A new variable placed right after `previous` (at the start for `None`): its position is
    /// the midpoint between `previous` and the current successor of `previous`.
    pub fn var_after(&mut self, previous: Option<Var>) -> (r: Var)
        requires
            old(self).wf(),
            0 <= slot(previous) < old(self).positions().len(),
            old(self).positions().len() < u32::MAX,
            old(self).room_after(previous),
        ensures
            final(self).wf(),
            r.id() == old(self).positions().len(),
            final(self).positions() == old(self).positions().push(
                (old(self).positions()[slot(previous)] + (old(self).subsequents()[slot(previous)]
                    - old(self).positions()[slot(previous)]) / 2) as u64,
            ),
            final(self).subsequents() == old(self).subsequents().update(
                slot(previous),
                final(self).positions()[r.id() as int],
            ).push(old(self).subsequents()[slot(previous)]),
            final(self).last() == if final(self).positions()[r.id() as int] > old(
                self,
            ).positions()[slot(old(self).last())] {
                Some(r)
            } else {
                old(self).last()
            },
            final(self).positions()[r.id() as int] > old(self).positions()[slot(previous)],
            forall|w: int|
                0 <= w < old(self).positions().len() && #[trigger] old(self).positions()[w]
                    > old(self).positions()[slot(previous)] ==> old(self).positions()[w]
                    > final(self).positions()[r.id() as int],
    {
        let prev = match previous {
            None => 0usize,
            Some(v) => v.0 as usize,
        };
        let ghost p0 = self.positions();
        let ghost s0 = self.subsequents();
        let prev_pos = self.positions[prev];
        let prev_sub = self.subsequents[prev];
        let position = Position(prev_pos.0 + (prev_sub.0 - prev_pos.0) / 2);
        let id = self.positions.len() as u32;
        self.subsequents.set(prev, position);
        self.positions.push(position);
        self.subsequents.push(prev_sub);
        let var = Var(id);
        let max_pos = match self.max {
            None => self.positions[0],
            Some(m) => self.positions[m.0 as usize],
        };
        if position.0 > max_pos.0 {
            self.max = Some(var);
        }
        proof {
            let p = self.positions();
            let s = self.subsequents();
            let np = position.0;
            assert(p =~= p0.push(np));
            assert(s =~= s0.update(prev as int, np).push(prev_sub.0));
            assert forall|v: int, w: int|
                0 <= v < p.len() && 0 <= w < p.len() && #[trigger] p[w] > #[trigger] p[v] implies p[w]
                >= s[v] by {
                if w < p0.len() && v < p0.len() {
                    if v == prev {
                        assert(p0[w] >= s0[prev as int]);
                    }
                } else if v < p0.len() {
                    if v != prev && p0[v] > p0[prev as int] {
                        assert(p0[v] >= s0[prev as int]);
                    }
                    if v != prev && p0[v] < p0[prev as int] {
                        assert(p0[prev as int] >= s0[v]);
                    }
                } else if w < p0.len() {
                    assert(p0[w] > p0[prev as int]);
                }
            }
            assert forall|v: int, w: int|
                0 <= v < p.len() && 0 <= w < p.len() && v != w implies #[trigger] p[v] != #[trigger] p[w] by {
                if v == p0.len() && w < p0.len() && p0[w] > p0[prev as int] {
                    assert(p0[w] >= s0[prev as int]);
                }
                if w == p0.len() && v < p0.len() && p0[v] > p0[prev as int] {
                    assert(p0[v] >= s0[prev as int]);
                }
            }
            assert forall|w: int|
                0 <= w < p0.len() && #[trigger] p0[w] > p0[prev as int] implies p0[w] > np by {
                assert(p0[w] >= s0[prev as int]);
            }
        }
        var
    }

    /// A new variable at the end of the order.
    pub fn var(&mut self) -> (r: Var)
        requires
            old(self).wf(),
            old(self).positions().len() < u32::MAX,
            old(self).room_after(old(self).last()),
        ensures
            final(self).wf(),
            r.id() == old(self).positions().len(),
            final(self).last() == Some(r),
            final(self).positions() == old(self).positions().push(
                (old(self).positions()[slot(old(self).last())] + (old(self).subsequents()[slot(
                    old(self).last(),
                )] - old(self).positions()[slot(old(self).last())]) / 2) as u64,
            ),
            final(self).subsequents() == old(self).subsequents().update(
                slot(old(self).last()),
                final(self).positions()[r.id() as int],
            ).push(old(self).subsequents()[slot(old(self).last())]),
            forall|w: int|
                0 <= w < old(self).positions().len() ==> #[trigger] old(self).positions()[w]
                    < final(self).positions()[r.id() as int],
    {
        let last = self.max;
        let r = self.var_after(last);
        proof {
            assert forall|w: int| 0 <= w < old(self).positions().len() implies #[trigger] old(
                self,
            ).positions()[w] < self.positions()[r.id() as int] by {
                assert(old(self).positions()[w] <= old(self).positions()[slot(last)]);
            }
        }
        r
    }
}

impl Default for Order {
    /// An order with no variable.
    fn default() -> (r: Order)
        ensures
            r.wf(),
            r.positions() == seq![0u64],
            r.last() is None,
            r.room_after(None),
    {
        Order::new()
    }
}

} // verus!
