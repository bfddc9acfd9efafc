//! The variable order of a BDD manager.
//!
//! An [Order] keeps a bijection between variables (identified by their creation index, a
//! [VarID]) and their position in the order (a [Level]).

use vstd::prelude::*;

verus! {

/// The position of a variable in the variable order.
///
/// Levels are compared among each other, subtracted to obtain their distance, and offset by an
/// unsigned integer to step through the order.
#[derive(Clone, Copy, PartialEq, Eq, Structural, PartialOrd, Ord, Hash, Debug)]
pub struct Level(pub u32);

impl Level {
    /// The level as an index into per-level tables.
    pub fn index(&self) -> (r: usize)
        ensures
            r == self.0,
    {
        self.0 as usize
    }

    /// The level, consumed, as an index into per-level tables.
    pub fn into_index(self) -> (r: usize)
        ensures
            r == self.0,
    {
        self.0 as usize
    }

    /// The level `rhs` positions further down the order.
    pub fn offset(self, rhs: u32) -> (r: Level)
        requires
            self.0 + rhs <= u32::MAX,
        ensures
            r.0 == self.0 + rhs,
    {
        Level(self.0 + rhs)
    }

    /// The signed distance between two levels.
    pub fn distance(self, rhs: Level) -> (r: i64)
        ensures
            r == self.0 - rhs.0,
    {
        self.0 as i64 - rhs.0 as i64
    }
}

/// The identity of a variable: its creation index.
#[derive(Clone, Copy, PartialEq, Eq, Structural, Hash, Debug)]
pub struct VarID(pub u32);

impl VarID {
    /// The variable created as the `index`-th one.
    pub fn from_index(index: usize) -> (r: VarID)
        requires
            index <= u32::MAX,
        ensures
            r.0 == index,
    {
        VarID(index as u32)
    }

    /// The creation index of the variable.
    pub fn into_index(self) -> (r: usize)
        ensures
            r == self.0,
    {
        self.0 as usize
    }

    /// The creation index of the variable, by reference.
    pub fn index(&self) -> (r: usize)
        ensures
            r == self.0,
    {
        self.0 as usize
    }
}

/// `s` lists, for each index, a distinct position among `0..s.len()`.
pub open spec fn is_permutation(s: Seq<u32>) -> bool {
    &&& forall|i: int| 0 <= i < s.len() ==> (#[trigger] s[i]) < s.len()
    &&& forall|i: int, j: int| 0 <= i < s.len() && 0 <= j < s.len() && i != j ==> #[trigger] s[i] != #[trigger] s[j]
}

/// The levels after making room for `n` variables right below `level`.
pub open spec fn shifted(s: Seq<u32>, level: u32, n: u32) -> Seq<u32> {
    s.map_values(|l: u32| if l > level { (l + n) as u32 } else { l })
}

/// A variable order: the level of each variable, and the variable at each level.
pub struct Order {
    var_to_level: Vec<Level>,
    level_to_var: Vec<VarID>,
}

impl View for Order {
    type V = Seq<u32>;

    /// The level of each variable, indexed by the variable's creation index.
    closed spec fn view(&self) -> Seq<u32> {
        self.var_to_level@.map_values(|l: Level| l.0)
    }
}

impl Order {
    /// The two tables are inverse of each other.
    pub closed spec fn wf(&self) -> bool {
        let n = self.var_to_level@.len();
        &&& self.level_to_var@.len() == n
        &&& n <= u32::MAX
        &&& forall|v: int|
            0 <= v < n ==> (#[trigger] self.var_to_level@[v]).0 < n
                && self.level_to_var@[self.var_to_level@[v].0 as int].0 == v
        &&& forall|l: int|
            0 <= l < n ==> (#[trigger] self.level_to_var@[l]).0 < n
                && self.var_to_level@[self.level_to_var@[l].0 as int].0 == l
    }

    /// A well-formed order maps its variables onto a permutation of their levels.
    pub proof fn lemma_wf(&self)
        requires
            self.wf(),
        ensures
            is_permutation(self@),
            self@.len() <= u32::MAX,
    {
        let n = self.var_to_level@.len();
        assert forall|i: int, j: int|
            0 <= i < n && 0 <= j < n && i != j implies #[trigger] self@[i] != #[trigger] self@[j] by {
            assert(self.level_to_var@[self.var_to_level@[i].0 as int].0 == i);
            assert(self.level_to_var@[self.var_to_level@[j].0 as int].0 == j);
        }
    }

    /// An empty order.
    pub fn new() -> (r: Order)
        ensures
            r.wf(),
            r@ == Seq::<u32>::empty(),
    {
        let r = Order { var_to_level: Vec::new(), level_to_var: Vec::new() };
        assert(r@ =~= Seq::<u32>::empty());
        r
    }

    /// The number of variables in the order.
    pub fn size(&self) -> (r: u32)
        requires
            self.wf(),
        ensures
            r == self@.len(),
    {
        self.var_to_level.len() as u32
    }

    /// The level of a variable.
    pub fn level_of(&self, var: VarID) -> (r: Level)
        requires
            self.wf(),
            var.0 < self@.len(),
        ensures
            r.0 == self@[var.0 as int],
    {
        self.var_to_level[var.0 as usize]
    }

    /// The variable at a level, if the level is occupied.
    pub fn var_at(&self, level: Level) -> (r: Option<VarID>)
        requires
            self.wf(),
        ensures
            r is None <==> level.0 >= self@.len(),
            r matches Some(v) ==> v.0 < self@.len() && self@[v.0 as int] == level.0,
    {
        if (level.0 as usize) < self.level_to_var.len() {
            let v = self.level_to_var[level.0 as usize];
            Some(v)
        } else {
            None
        }
    }

    /// The variable right after `var` in the order, if any.
    pub fn next_of(&self, var: VarID) -> (r: Option<VarID>)
        requires
            self.wf(),
            var.0 < self@.len(),
        ensures
            r is None <==> self@[var.0 as int] + 1 >= self@.len(),
            r matches Some(v) ==> v.0 < self@.len() && self@[v.0 as int] == self@[var.0 as int] + 1,
    {
        let l = self.level_of(var);
        self.var_at(l.offset(1))
    }

    /// The first variable of the order, if any.
    pub fn first(&self) -> (r: Option<VarID>)
        requires
            self.wf(),
        ensures
            r is None <==> self@.len() == 0,
            r matches Some(v) ==> v.0 < self@.len() && self@[v.0 as int] == 0,
    {
        if self.size() == 0 {
            return None;
        }
        Some(self.level_to_var[0])
    }

    /// The last variable of the order, if any.
    pub fn last(&self) -> (r: Option<VarID>)
        requires
            self.wf(),
        ensures
            r is None <==> self@.len() == 0,
            r matches Some(v) ==> v.0 < self@.len() && self@[v.0 as int] == self@.len() - 1,
    {
        if self.size() == 0 {
            return None;
        }
        Some(self.level_to_var[self.level_to_var.len() - 1])
    }

    /// Exchange the levels of two variables.
    pub fn swap(&mut self, v1: VarID, v2: VarID)
        requires
            old(self).wf(),
            v1.0 < old(self)@.len(),
            v2.0 < old(self)@.len(),
        ensures
            final(self).wf(),
            final(self)@ == old(self)@.update(v1.0 as int, old(self)@[v2.0 as int]).update(
                v2.0 as int,
                old(self)@[v1.0 as int],
            ),
    {
        let l1 = self.level_of(v1);
        let l2 = self.level_of(v2);
        self.var_to_level.set(v1.0 as usize, l2);
        self.var_to_level.set(v2.0 as usize, l1);
        self.level_to_var.set(l1.0 as usize, v2);
        self.level_to_var.set(l2.0 as usize, v1);
        assert(self@ =~= old(self)@.update(v1.0 as int, old(self)@[v2.0 as int]).update(
            v2.0 as int,
            old(self)@[v1.0 as int],
        ));
    }

    /// Add a variable at the bottom of the order.
    pub fn add_var(&mut self) -> (r: VarID)
        requires
            old(self).wf(),
            old(self)@.len() < u32::MAX,
        ensures
            final(self).wf(),
            r.0 == old(self)@.len(),
            final(self)@ == old(self)@.push(old(self)@.len() as u32),
    {
        let size = self.size();
        let new = VarID(size);
        let level = Level(size);
        self.var_to_level.push(level);
        self.level_to_var.push(new);
        assert(self@ =~= old(self)@.push(old(self)@.len() as u32));
        new
    }

    /// Add a variable right after the given level, shifting the following ones down.
    pub fn add_var_after(&mut self, level: Level) -> (r: VarID)
        requires
            old(self).wf(),
            old(self)@.len() < u32::MAX,
            level.0 < old(self)@.len(),
        ensures
            final(self).wf(),
            r.0 == old(self)@.len(),
            final(self)@ == shifted(old(self)@, level.0, 1).push((level.0 + 1) as u32),
    {
        let size = self.size();
        let new = VarID(size);
        let n = self.var_to_level.len();
        let pos = level.index() + 1;
        let ghost old_vtl = self.var_to_level@;
        let mut l = pos;
        while l < n
            invariant
                pos == level.0 + 1,
                n == old_vtl.len(),
                pos <= l <= n,
                old(self).wf(),
                self.level_to_var == old(self).level_to_var,
                old_vtl == old(self).var_to_level@,
                self.var_to_level@.len() == n,
                forall|v: int|
                    0 <= v < n ==> (#[trigger] self.var_to_level@[v]).0 == if old_vtl[v].0 > level.0
                        && old_vtl[v].0 < l {
                        old_vtl[v].0 + 1
                    } else {
                        old_vtl[v].0 as int
                    },
            decreases n - l,
        {
            let v = self.level_to_var[l];
            let cur = self.var_to_level[v.0 as usize];
            proof {
                assert(old_vtl[v.0 as int].0 == l);
            }
            self.var_to_level.set(v.0 as usize, cur.offset(1));
            l = l + 1;
        }
        self.var_to_level.push(level.offset(1));
        self.level_to_var.insert(pos, new);
        proof {
            let nn = n + 1;
            assert forall|v: int| 0 <= v < nn implies (#[trigger] self.var_to_level@[v]).0 < nn
                && self.level_to_var@[self.var_to_level@[v].0 as int].0 == v by {
                if v < n {
                    assert(old(self).level_to_var@[old_vtl[v].0 as int].0 == v);
                }
            }
            assert forall|k: int| 0 <= k < nn implies (#[trigger] self.level_to_var@[k]).0 < nn
                && self.var_to_level@[self.level_to_var@[k].0 as int].0 == k by {
                if k < pos {
                    assert(old(self).var_to_level@[old(self).level_to_var@[k].0 as int].0 == k);
                } else if k > pos {
                    assert(old(self).var_to_level@[old(self).level_to_var@[k - 1].0 as int].0 == k
                        - 1);
                }
            }
            assert(self@ =~= shifted(old(self)@, level.0, 1).push((level.0 + 1) as u32));
        }
        new
    }

    /// Add `n` variables at the bottom of the order.
    pub fn add_vars(&mut self, n: u32) -> (r: Vec<VarID>)
        requires
            old(self).wf(),
            old(self)@.len() + n <= u32::MAX,
        ensures
            final(self).wf(),
            r@.len() == n,
            forall|i: int| 0 <= i < n ==> (#[trigger] r@[i]).0 == old(self)@.len() + i,
            final(self)@ == old(self)@ + Seq::new(n as nat, |i: int| (old(self)@.len() + i) as u32),
    {
        let mut vars: Vec<VarID> = Vec::new();
        let mut i: u32 = 0;
        while i < n
            invariant
                self.wf(),
                0 <= i <= n,
                self@.len() == old(self)@.len() + i,
                old(self)@.len() + n <= u32::MAX,
                vars@.len() == i,
                forall|k: int| 0 <= k < i ==> (#[trigger] vars@[k]).0 == old(self)@.len() + k,
                self@ == old(self)@ + Seq::new(i as nat, |k: int| (old(self)@.len() + k) as u32),
            decreases n - i,
        {
            let v = self.add_var();
            vars.push(v);
            i = i + 1;
            assert(self@ =~= old(self)@ + Seq::new(i as nat, |k: int| (old(self)@.len() + k) as u32));
        }
        vars
    }

    /// Add `n` variables right after the given level, shifting the following ones down.
    pub fn add_vars_after(&mut self, level: Level, n: u32) -> (r: Vec<VarID>)
        requires
            old(self).wf(),
            old(self)@.len() < u32::MAX - n,
            level.0 < old(self)@.len(),
        ensures
            final(self).wf(),
            r@.len() == n,
            forall|i: int| 0 <= i < n ==> (#[trigger] r@[i]).0 == old(self)@.len() + i,
            final(self)@ == shifted(old(self)@, level.0, n) + Seq::new(
                n as nat,
                |i: int| (level.0 + 1 + i) as u32,
            ),
    {
        let size = self.size();
        let len = self.var_to_level.len();
        let pos = level.index() + 1;
        let ghost old_vtl = self.var_to_level@;
        let ghost old_ltv = self.level_to_var@;
        let mut l = pos;
        while l < len
            invariant
                pos == level.0 + 1,
                len == old_vtl.len(),
                size == len,
                len < u32::MAX - n,
                pos <= l <= len,
                old(self).wf(),
                self.level_to_var == old(self).level_to_var,
                old_vtl == old(self).var_to_level@,
                old_ltv == old(self).level_to_var@,
                self.var_to_level@.len() == len,
                forall|v: int|
                    0 <= v < len ==> (#[trigger] self.var_to_level@[v]).0 == if old_vtl[v].0 > level.0
                        && old_vtl[v].0 < l {
                        old_vtl[v].0 + n
                    } else {
                        old_vtl[v].0 as int
                    },
            decreases len - l,
        {
            let v = self.level_to_var[l];
            let cur = self.var_to_level[v.0 as usize];
            proof {
                assert(old_vtl[v.0 as int].0 == l);
            }
            self.var_to_level.set(v.0 as usize, cur.offset(n));
            l = l + 1;
        }
        let mut vars: Vec<VarID> = Vec::new();
        let mut i: u32 = 0;
        while i < n
            invariant
                0 <= i <= n,
                pos == level.0 + 1,
                level.0 < len,
                self.level_to_var@ == old_ltv,
                size == len,
                len == old_vtl.len(),
                len < u32::MAX - n,
                vars@.len() == i,
                forall|k: int| 0 <= k < i ==> (#[trigger] vars@[k]).0 == len + k,
                self.var_to_level@.len() == len + i,
                forall|k: int| 0 <= k < i ==> (#[trigger] self.var_to_level@[len + k]).0 == pos + k,
                forall|v: int|
                    0 <= v < len ==> (#[trigger] self.var_to_level@[v]).0 == if old_vtl[v].0 > level.0 {
                        old_vtl[v].0 + n
                    } else {
                        old_vtl[v].0 as int
                    },
            decreases n - i,
        {
            vars.push(VarID(size + i));
            self.var_to_level.push(Level(level.0 + 1 + i));
            i = i + 1;
        }
        let mut ltv: Vec<VarID> = Vec::new();
        let mut k: usize = 0;
        while k < pos
            invariant
                0 <= k <= pos <= len,
                len == old_ltv.len(),
                ltv@ == old_ltv.subrange(0, k as int),
                self.level_to_var@ == old_ltv,
            decreases pos - k,
        {
            ltv.push(self.level_to_var[k]);
            k = k + 1;
        }
        let mut i: usize = 0;
        while i < n as usize
            invariant
                0 <= i <= n,
                pos <= len,
                len == old_ltv.len(),
                vars@.len() == n,
                ltv@ == old_ltv.subrange(0, pos as int) + vars@.subrange(0, i as int),
            decreases n - i,
        {
            ltv.push(vars[i]);
            i = i + 1;
        }
        let mut k: usize = pos;
        while k < len
            invariant
                pos <= k <= len,
                len == old_ltv.len(),
                vars@.len() == n,
                self.level_to_var@ == old_ltv,
                ltv@ == old_ltv.subrange(0, pos as int) + vars@ + old_ltv.subrange(
                    pos as int,
                    k as int,
                ),
            decreases len - k,
        {
            ltv.push(self.level_to_var[k]);
            k = k + 1;
        }
        self.level_to_var = ltv;
        proof {
            let nn = len + n;
            assert(self.level_to_var@.len() == nn);
            assert forall|v: int| 0 <= v < nn implies (#[trigger] self.var_to_level@[v]).0 < nn
                && self.level_to_var@[self.var_to_level@[v].0 as int].0 == v by {
                if v < len {
                    assert(old(self).level_to_var@[old_vtl[v].0 as int].0 == v);
                    assert(old_vtl[v].0 < len);
                } else {
                    assert(self.var_to_level@[len + (v - len)].0 == pos + (v - len));
                }
            }
            assert forall|q: int| 0 <= q < nn implies (#[trigger] self.level_to_var@[q]).0 < nn
                && self.var_to_level@[self.level_to_var@[q].0 as int].0 == q by {
                if q < pos {
                    assert(old(self).var_to_level@[old_ltv[q].0 as int].0 == q);
                } else if q >= pos + n {
                    assert(self.level_to_var@[q] == old_ltv[q - n]);
                    assert(old(self).var_to_level@[old_ltv[q - n].0 as int].0 == q - n);
                } else {
                    assert(self.level_to_var@[q] == vars@[q - pos]);
                    assert(self.var_to_level@[len + (q - pos)].0 == pos + (q - pos));
                }
            }
            assert(self@ =~= shifted(old(self)@, level.0, n) + Seq::new(
                n as nat,
                |i: int| (level.0 + 1 + i) as u32,
            ));
        }
        vars
    }
}

} // verus!
