//! What the kernel knows of an address space, whatever the architecture.

pub mod aarch64;
pub mod edit;
pub mod range;
pub mod space;
pub mod tables;
pub mod x86_64;

use vstd::prelude::*;

verus! {

/// Memory protection. Nothing is both writable and executable: there is no value for it.
#[derive(Clone, Copy, PartialEq, Eq, Structural, Debug)]
pub enum Prot {
    /// Read-only, not executable.
    Ro,
    /// Read-write, not executable.
    Rw,
    /// Read and execute, not writable.
    Rx,
}

impl Prot {
    /// Writable?
    pub open spec fn writes(self) -> bool {
        self == Prot::Rw
    }

    /// Executable?
    pub open spec fn executes(self) -> bool {
        self == Prot::Rx
    }

    /// The protection that these intents ask for; `None` for one that is not readable, or both
    /// writable and executable.
    #[must_use]
    pub fn checked(read: bool, write: bool, exec: bool) -> (r: Option<Prot>)
        ensures
            r is Some <==> read && !(write && exec),
            r is Some ==> r->0.writes() == write && r->0.executes() == exec,
    {
        if !read || (write && exec) {
            None
        } else if write {
            Some(Prot::Rw)
        } else if exec {
            Some(Prot::Rx)
        } else {
            Some(Prot::Ro)
        }
    }
}

/// The address space that the kernel builds for itself: low memory twice (identity and direct map)
/// and its own image, section by section.
pub struct KernelMap {
    /// The base of the direct map.
    pub hhdm_offset: u64,
    /// How much low memory is mapped.
    pub identity_bytes: u64,
    /// The virtual base of the image.
    pub kernel_vbase: u64,
    /// The virtual end of the image.
    pub kernel_vend: u64,
    /// The physical base of the image.
    pub kernel_phys: u64,
    /// Start and end of the code.
    pub text: (u64, u64),
    /// Start and end of the constants.
    pub rodata: (u64, u64),
    /// Start and end of the data.
    pub data: (u64, u64),
}

/// The roots of an address space's tables; how many count depends on the architecture.
#[derive(Clone, Copy, PartialEq, Eq, Structural, Debug)]
pub struct AddressSpace {
    pub primary: u64,
    pub secondary: u64,
}

} // verus!
