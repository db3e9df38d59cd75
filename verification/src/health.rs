//! Hit points of a creature: damage clamps at zero, healing clamps at the
//! maximum.

use vstd::prelude::*;

verus! {

#[derive(Clone, Copy, Debug)]
pub struct Health {
    current: i32,
    max: i32,
}

impl Health {
    pub closed spec fn spec_current(self) -> int {
        self.current as int
    }

    pub closed spec fn spec_max(self) -> int {
        self.max as int
    }

    /// Hit points are machine integers.
    pub proof fn lemma_bounds(self)
        ensures
            i32::MIN <= self.spec_current() <= i32::MAX,
            i32::MIN <= self.spec_max() <= i32::MAX,
    {
    }

    pub fn new(max: i32) -> (r: Self)
        ensures
            r.spec_current() == max,
            r.spec_max() == max,
    {
        Health { current: max, max }
    }

    /// Lower the current hit points by `damage`, never below zero.
    pub fn take_damage(&mut self, damage: i32)
        requires
            i32::MIN <= old(self).spec_current() - damage <= i32::MAX,
        ensures
            final(self).spec_max() == old(self).spec_max(),
            final(self).spec_current() == if old(self).spec_current() - damage < 0 {
                0
            } else {
                old(self).spec_current() - damage
            },
    {
        self.current = self.current - damage;
        if self.current < 0 {
            self.current = 0;
        }
    }

    /// Raise the current hit points by `amount`, never above the maximum.
    pub fn heal(&mut self, amount: i32)
        requires
            i32::MIN <= old(self).spec_current() + amount <= i32::MAX,
        ensures
            final(self).spec_max() == old(self).spec_max(),
            final(self).spec_current() == if old(self).spec_current() + amount > old(
                self,
            ).spec_max() {
                old(self).spec_max()
            } else {
                old(self).spec_current() + amount
            },
    {
        self.current = self.current + amount;
        if self.current > self.max {
            self.current = self.max;
        }
    }

    pub fn get_current(&self) -> (r: i32)
        ensures
            r == self.spec_current(),
    {
        self.current
    }

    pub fn get_max(&self) -> (r: i32)
        ensures
            r == self.spec_max(),
    {
        self.max
    }

    pub fn is_alive(&self) -> (r: bool)
        ensures
            r == (self.spec_current() > 0),
    {
        self.current > 0
    }
}

} // verus!
