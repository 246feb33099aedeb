//! The system-call interface shared by the kernel and user space.
use vstd::prelude::*;

verus! {

pub const PAGE_SIZE: usize = 4096;

/// Physical allocations are aligned to 32 pages (128 KiB): allocations of up to 32 pages
/// are aligned to their own size rounded up to a power of two.
pub const ALLOC_ALIGNMENT: usize = 0x20000;

/// The system calls.
#[derive(Clone, Copy, PartialEq, Eq, Structural)]
pub enum Syscall {
    Write,
    Read,
    MemMap,
}

impl Syscall {
    /// Size of the system-call table.
    pub const MAX_ENTRIES: usize = 4096;
    /// Returned by the kernel for a system call that does not exist.
    pub const INVALID: usize = usize::MAX;

    /// The number of the system call: its index in the system-call table.
    pub open spec fn spec_number(self) -> usize {
        match self {
            Syscall::Write => 0x000usize,
            Syscall::Read => 0x001usize,
            Syscall::MemMap => 0x010usize,
        }
    }

    /// The number of the system call: its index in the system-call table.
    #[verifier::when_used_as_spec(spec_number)]
    pub fn number(self) -> (r: usize)
        ensures
            r == self.spec_number(),
            r < Self::MAX_ENTRIES,
    {
        match self {
            Syscall::Write => 0x000,
            Syscall::Read => 0x001,
            Syscall::MemMap => 0x010,
        }
    }

    /// The system call with number `n`, if any.
    pub fn from_number(n: usize) -> (r: Option<Syscall>)
        ensures
            match r {
                Some(s) => s.number() == n,
                None => n != 0 && n != 1 && n != 0x10,
            },
    {
        if n == 0 {
            Some(Syscall::Write)
        } else if n == 1 {
            Some(Syscall::Read)
        } else if n == 0x10 {
            Some(Syscall::MemMap)
        } else {
            None
        }
    }

    /// Number of arguments the system call takes.
    pub fn arg_count(self) -> (r: usize)
        ensures
            r == match self {
                Syscall::Write => 3usize,
                Syscall::Read => 3usize,
                Syscall::MemMap => 4usize,
            },
    {
        match self {
            Syscall::Write => 3,
            Syscall::Read => 3,
            Syscall::MemMap => 4,
        }
    }
}

/// A value passed in one register of a system call.
pub trait SyscallArg: Sized {
    fn into_usize(self) -> usize;

    fn from_usize(value: usize) -> Self;
}

/// A handle to an open file.
#[derive(Clone, Copy, PartialEq, Eq, Structural, PartialOrd, Ord, Hash)]
pub struct FileHandle(pub usize);

impl FileHandle {
    pub const STDOUT: usize = 0;
    pub const STDIN: usize = 1;
    pub const NONE: usize = usize::MAX;
}

impl SyscallArg for FileHandle {
    fn into_usize(self) -> (r: usize)
        ensures
            r == self.0,
    {
        self.0
    }

    fn from_usize(value: usize) -> (r: Self)
        ensures
            r.0 == value,
    {
        FileHandle(value)
    }
}

impl SyscallArg for usize {
    fn into_usize(self) -> (r: usize)
        ensures
            r == self,
    {
        self
    }

    fn from_usize(value: usize) -> (r: Self)
        ensures
            r == value,
    {
        value
    }
}

} // verus!
