//! The paging layer's vocabulary: its errors, the flags of a mapping and
//! the size of a page, for a paging manager of an architecture. Mapping
//! pages touches the page tables, which is the caller's.
use vstd::prelude::*;
use core::marker::PhantomData;
use crate::levels::BASIC_PAGE_SIZE;

verus! {

/// Errors that the paging layer might encounter
#[derive(Debug, Clone, Copy, PartialEq, Eq, Structural)]
pub enum PagingError {
    /// The page is already mapped
    PageAlreadyPresent,
    /// The page is not mapped
    PageNotPresent,
    /// A page fault occurred
    PageFault,
    /// The page size is not supported
    InvalidPageSize,
    /// The address is not valid for the operation
    InvalidAddress,
    /// The flags are not valid for the operation
    InvalidFlags,
    /// No memory is left to back the pages
    OutOfMemory,
    /// The page count does not fit the address
    BadPageCountAndAddressCombination,
}

/// A paging manager of an architecture: it knows the size of its basic
/// page.
pub trait PagingManager: Sized {
    /// The size of the basic page, in bytes.
    spec fn basic_page_size_spec() -> usize;

    /// The size of the basic page, in bytes
    fn basic_page_size() -> (r: usize)
        ensures
            r == Self::basic_page_size_spec(),
            r > 0,
    ;
}

/// The paging manager of x86_64, whose basic page is 4 KiB.
#[derive(Clone, Copy)]
pub struct X86_64Paging;

impl PagingManager for X86_64Paging {
    open spec fn basic_page_size_spec() -> usize {
        BASIC_PAGE_SIZE
    }

    fn basic_page_size() -> (r: usize) {
        BASIC_PAGE_SIZE
    }
}

/// The flags of a mapping, as the architecture of `P` encodes them
pub struct Flags<P> where P: PagingManager {
    /// The flags' bits
    data: usize,
    _arch: PhantomData<P>,
}

/// The size of a page of the architecture of `P`
pub struct PageSize<P> where P: PagingManager {
    /// The size in bytes
    size: usize,
    _arch: PhantomData<P>,
}

impl<P> PageSize<P> where P: PagingManager {
    /// The size in bytes
    pub closed spec fn bytes(&self) -> usize {
        self.size
    }

    /// The size in bytes
    pub fn size(&self) -> (r: usize)
        ensures
            r == self.bytes(),
    {
        self.size
    }

    /// The alignment of such pages, in basic pages
    pub fn page_alignment(&self) -> (r: usize)
        ensures
            r == self.bytes() / P::basic_page_size_spec(),
    {
        self.size / P::basic_page_size()
    }

    /// The number of basic pages in such a page
    pub fn to_default_page_count(&self) -> (r: usize)
        ensures
            r == self.bytes() / P::basic_page_size_spec(),
    {
        self.size / P::basic_page_size()
    }

    /// A page size of `size` bytes, which the architecture must support
    pub fn from_raw(size: usize) -> (r: Self)
        ensures
            r.bytes() == size,
    {
        PageSize { size, _arch: PhantomData }
    }
}

impl<P> Flags<P> where P: PagingManager {
    /// The flags' bits
    pub closed spec fn bits(&self) -> usize {
        self.data
    }

    /// The flags' bits
    pub fn data(&self) -> (r: usize)
        ensures
            r == self.bits(),
    {
        self.data
    }

    /// Whether any of the flags in `data` is set
    pub fn get(&self, data: usize) -> (r: bool)
        ensures
            r == (self.bits() & data != 0),
    {
        (self.data & data) != 0
    }

    /// The flags with those in `data` set, or cleared
    pub fn set(&self, data: usize, status: bool) -> (r: Self)
        ensures
            r.bits() == (if status {
                self.bits() | data
            } else {
                self.bits() & !data
            }),
    {
        if status {
            Flags { data: self.data | data, _arch: PhantomData }
        } else {
            Flags { data: self.data & !data, _arch: PhantomData }
        }
    }

    /// Flags of the bits `data`, which the architecture must define
    pub fn from_raw(data: usize) -> (r: Self)
        ensures
            r.bits() == data,
    {
        Flags { data, _arch: PhantomData }
    }

    /// Both sets of flags together, or `None` when they overlap
    pub fn join(&self, other: &Flags<P>) -> (r: Option<Self>)
        ensures
            (self.bits() & other.bits() != 0) ==> r is None,
            (self.bits() & other.bits() == 0) ==> (r matches Some(f) && f.bits() == self.bits() | other.bits()),
    {
        if self.data & other.data != 0 {
            return None;
        }
        Some(self.set(other.data, true))
    }
}

} // verus!
