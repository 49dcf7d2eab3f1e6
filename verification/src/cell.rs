use vstd::prelude::*;

verus! {

/// A minimal signal primitive: a value together with a version counter that
/// strictly increases on every write, so that a reader can tell whether the
/// value it last observed is still current.
#[derive(Clone, Copy)]
pub struct ReactiveCell {
    /// The current value.
    pub value: u64,
    /// Bumped by one on every `set`; never decreases.
    pub version: u64,
}

impl ReactiveCell {
    /// A fresh cell starts at version 1, so that version 0 can mean
    /// "never observed" to a dependent.
    pub fn new(value: u64) -> (c: ReactiveCell)
        ensures
            c.value == value,
            c.version == 1,
    {
        ReactiveCell { value, version: 1 }
    }

    /// Read the current value.
    pub fn get(&self) -> (v: u64)
        ensures
            v == self.value,
    {
        self.value
    }

    /// Read the current version.
    pub fn get_version(&self) -> (v: u64)
        ensures
            v == self.version,
    {
        self.version
    }

    /// Replace the value and publish a new version.
    pub fn set(&mut self, v: u64)
        requires
            old(self).version < u64::MAX,
        ensures
            final(self).value == v,
            final(self).version == old(self).version + 1,
    {
        self.value = v;
        self.version = self.version + 1;
    }
}

} // verus!
