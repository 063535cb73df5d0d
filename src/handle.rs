//! Handles: positions in the managed region, and their translation to addresses.
use vstd::prelude::*;

verus! {

/// A position in the managed region. `usize::MAX` stands for no position at all.
#[derive(Clone, Copy, Debug, PartialEq, Eq, Structural, PartialOrd, Ord)]
pub struct MemoryHandle(pub usize);

/// How handles relate to addresses.
#[derive(Clone, Copy, Debug, PartialEq, Eq, Structural)]
pub enum AddressSpace {
    /// Sandboxed linear memory: a handle is its own address.
    Linear,
    /// Host memory: a handle is an offset from the region's base address, which is
    /// known only between the allocator's construction and its teardown.
    Hosted { base: Option<usize> },
}

impl AddressSpace {
    /// Translation can be made: always in linear memory, on the host only while the
    /// base is established.
    pub open spec fn spec_is_established(self) -> bool {
        match self {
            AddressSpace::Linear => true,
            AddressSpace::Hosted { base } => base.is_some(),
        }
    }

    pub fn is_linear(&self) -> (r: bool)
        ensures
            r == (*self == AddressSpace::Linear),
    {
        match self {
            AddressSpace::Linear => true,
            AddressSpace::Hosted { .. } => false,
        }
    }

    pub fn is_established(&self) -> (r: bool)
        ensures
            r == self.spec_is_established(),
    {
        match self {
            AddressSpace::Linear => true,
            AddressSpace::Hosted { base } => base.is_some(),
        }
    }
}

pub const NULL_OFFSET: usize = usize::MAX;

impl MemoryHandle {
    pub open spec fn spec_is_null(self) -> bool {
        self.0 == NULL_OFFSET
    }

    /// The address this handle stands for, or `None` for the null handle and for a
    /// host region whose base is not established.
    pub open spec fn spec_to_ptr(self, space: AddressSpace) -> Option<usize> {
        if self.spec_is_null() {
            None
        } else {
            match space {
                AddressSpace::Linear => Some(self.0),
                AddressSpace::Hosted { base } => match base {
                    Some(b) => if b + self.0 < NULL_OFFSET {
                        Some((b + self.0) as usize)
                    } else {
                        None
                    },
                    None => None,
                },
            }
        }
    }

    /// The handle of an address, or the null handle when the address is null, lies
    /// before the base, or the base is not established.
    pub open spec fn spec_from_ptr(ptr: Option<usize>, space: AddressSpace) -> MemoryHandle {
        match ptr {
            None => MemoryHandle(NULL_OFFSET),
            Some(a) => match space {
                AddressSpace::Linear => MemoryHandle(a),
                AddressSpace::Hosted { base } => match base {
                    Some(b) => if a >= b {
                        MemoryHandle((a - b) as usize)
                    } else {
                        MemoryHandle(NULL_OFFSET)
                    },
                    None => MemoryHandle(NULL_OFFSET),
                },
            },
        }
    }

    pub fn to_ptr(self, space: &AddressSpace) -> (r: Option<usize>)
        ensures
            r == self.spec_to_ptr(*space),
    {
        if self.is_null() {
            return None;
        }
        match space {
            AddressSpace::Linear => Some(self.0),
            AddressSpace::Hosted { base } => match base {
                Some(b) => {
                    if *b < NULL_OFFSET - self.0 {
                        Some(*b + self.0)
                    } else {
                        None
                    }
                },
                None => None,
            },
        }
    }

    pub fn from_ptr(ptr: Option<usize>, space: &AddressSpace) -> (r: MemoryHandle)
        ensures
            r == MemoryHandle::spec_from_ptr(ptr, *space),
    {
        match ptr {
            None => MemoryHandle::null(),
            Some(a) => match space {
                AddressSpace::Linear => MemoryHandle(a),
                AddressSpace::Hosted { base } => match base {
                    Some(b) => {
                        if a >= *b {
                            MemoryHandle(a - *b)
                        } else {
                            MemoryHandle::null()
                        }
                    },
                    None => MemoryHandle::null(),
                },
            },
        }
    }

    pub fn offset(self) -> (r: usize)
        ensures
            r == self.0,
    {
        self.0
    }

    pub fn is_null(self) -> (r: bool)
        ensures
            r == self.spec_is_null(),
    {
        self.0 == NULL_OFFSET
    }

    pub fn null() -> (r: MemoryHandle)
        ensures
            r.spec_is_null(),
    {
        MemoryHandle(NULL_OFFSET)
    }

    /// The handle `delta` bytes further on, wrapping around at the end of `usize`.
    pub fn advance(self, delta: usize) -> (r: MemoryHandle)
        ensures
            r.0 == if self.0 + delta <= usize::MAX {
                self.0 + delta
            } else {
                self.0 + delta - usize::MAX - 1
            },
    {
        MemoryHandle(self.0.wrapping_add(delta))
    }
}

/// A handle that translates to an address comes back from that address unchanged.
pub proof fn lemma_handle_round_trip(h: MemoryHandle, space: AddressSpace)
    requires
        h.spec_to_ptr(space).is_some(),
    ensures
        MemoryHandle::spec_from_ptr(h.spec_to_ptr(space), space) == h,
{
}

} // verus!
