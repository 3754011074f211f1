use vstd::prelude::*;

verus! {

/// Dirty wraps a value of type T with functions similiar to that of a Read/Write
/// lock but simply sets a dirty flag on write(), reset on read(). `get` looks at
/// the value without a read: the file systems look at their values that way, and
/// read a value when they write it back.
pub struct Dirty<T> {
    value: T,
    dirty: bool,
}

impl<T> Dirty<T> {
    /// The wrapped value.
    pub closed spec fn value(&self) -> T {
        self.value
    }

    /// Whether the value was written since the last sync.
    pub closed spec fn is_dirty(&self) -> bool {
        self.dirty
    }

    /// Create a new, clean Dirty
    pub fn new(val: T) -> (d: Dirty<T>)
        ensures
            d.value() == val,
            !d.is_dirty(),
    {
        Dirty { value: val, dirty: false }
    }

    /// Create a new Dirty that still has to be written back
    pub fn new_dirty(val: T) -> (d: Dirty<T>)
        ensures
            d.value() == val,
            d.is_dirty(),
    {
        Dirty { value: val, dirty: true }
    }

    /// Returns true if dirty, false otherwise
    pub fn dirty(&self) -> (b: bool)
        ensures
            b == self.is_dirty(),
    {
        self.dirty
    }

    /// Reset dirty
    pub fn sync(&mut self)
        ensures
            final(self).value() == old(self).value(),
            !final(self).is_dirty(),
    {
        self.dirty = false;
    }

    /// Read the value, which resets the dirty flag
    pub fn read(&mut self) -> (r: &T)
        ensures
            *r == old(self).value(),
            final(self).value() == old(self).value(),
            !final(self).is_dirty(),
    {
        self.dirty = false;
        &self.value
    }

    /// Look at the value; the dirty flag stays as it is
    pub fn get(&self) -> (r: &T)
        ensures
            *r == self.value(),
    {
        &self.value
    }

    /// Replace the value, which sets the dirty flag
    pub fn set(&mut self, val: T)
        ensures
            final(self).value() == val,
            final(self).is_dirty(),
    {
        self.dirty = true;
        self.value = val;
    }

    /// Writable value access, which sets the dirty flag
    pub fn get_mut(&mut self) -> (r: &mut T)
        ensures
            *r == old(self).value(),
            final(self).value() == *final(r),
            final(self).is_dirty(),
    {
        self.dirty = true;
        &mut self.value
    }
}

} // verus!
