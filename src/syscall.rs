use vstd::prelude::*;

verus! {

/// System calls shared by the kernel and user space.
#[derive(Debug, Clone, Copy, PartialEq, Eq, Structural)]
pub enum SyscallId {
    Print,
    Exit,
    Fork,
    Exec,
}

impl SyscallId {
    /// The call's number as passed across the user/kernel boundary.
    pub fn number(self) -> (r: usize)
        ensures
            r == match self {
                SyscallId::Print => 0usize,
                SyscallId::Exit => 1usize,
                SyscallId::Fork => 2usize,
                SyscallId::Exec => 3usize,
            },
    {
        match self {
            SyscallId::Print => 0,
            SyscallId::Exit => 1,
            SyscallId::Fork => 2,
            SyscallId::Exec => 3,
        }
    }
}

} // verus!
