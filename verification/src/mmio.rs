//! Wrappers for easier handling of MMIO: where a register lies. The volatile
//! accesses are the caller's.
use vstd::prelude::*;
use core::marker::PhantomData;

verus! {

/// A trait for types that can be used as MMIO register offsets
///
/// NOTE: SHOULD NOT BE IMPLEMENTED FOR PRIMITIVE TYPES!
/// It's only implemented for `usize` here.
pub trait Offsetable {
    /// Returns the offset **in bytes** of the register from the base address.
    fn offset(self) -> usize;
}

impl Offsetable for usize {
    /// The offset is the value itself.
    fn offset(self) -> (r: usize)
        ensures
            r == self,
    {
        self
    }
}

/// A wrapper for a single MMIO register
pub struct MmioCell<T> where T: Copy {
    /// Address of the register
    base: usize,
    _value: PhantomData<T>,
}

/// A wrapper for a MMIO area. This is the same as `MmioCell`, but for a
/// range of registers, read through offsets of `R` and written through
/// offsets of `W`.
pub struct MmioArea<R, W, T> where R: Offsetable, W: Offsetable, T: Copy {
    /// Address of the area
    base: usize,
    _writable: PhantomData<W>,
    _readable: PhantomData<R>,
    _value: PhantomData<T>,
}

impl<R, W, T> MmioArea<R, W, T> where R: Offsetable, W: Offsetable, T: Copy {
    /// The address of the area.
    pub closed spec fn address(&self) -> usize {
        self.base
    }

    /// Creates a new `MmioArea` with the given base address.
    pub fn new(base: usize) -> (r: Self)
        ensures
            r.address() == base,
    {
        MmioArea { base, _writable: PhantomData, _readable: PhantomData, _value: PhantomData }
    }

    /// Override the base address of the MMIO area
    pub fn change_base(&mut self, base: usize)
        ensures
            final(self).address() == base,
    {
        self.base = base;
    }

    /// Get the base address of the MMIO area
    pub fn base(&self) -> (r: usize)
        ensures
            r == self.address(),
    {
        self.base
    }

    /// The address of the register at `offset` bytes into the area.
    pub fn register_address(&self, offset: usize) -> (r: usize)
        requires
            self.address() + offset <= usize::MAX,
        ensures
            r == self.address() + offset,
    {
        self.base + offset
    }
}

impl<T> MmioCell<T> where T: Copy {
    /// The address of the register.
    pub closed spec fn address(&self) -> usize {
        self.base
    }

    /// Creates a new `MmioCell` with the given base address.
    pub fn new(base: usize) -> (r: Self)
        ensures
            r.address() == base,
    {
        MmioCell { base, _value: PhantomData }
    }

    /// Get the address of the register
    pub fn base(&self) -> (r: usize)
        ensures
            r == self.address(),
    {
        self.base
    }
}

} // verus!
