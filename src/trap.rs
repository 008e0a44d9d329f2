//! What the kernel does with a trap, by its cause.
use vstd::prelude::*;
use crate::process::{SIGILL, SIGSEGV};

verus! {

/// Number of general registers saved in a trap context.
pub const TRAP_REGS: usize = 32;

/// User registers saved at a trap: `x0`..`x31`, `sstatus` and `sepc`.
pub struct TrapContext {
    pub x: Vec<usize>,
    pub sstatus: usize,
    pub sepc: usize,
}

impl TrapContext {
    /// All registers zero.
    pub fn zero() -> (cx: Self)
        ensures
            cx.x@ == Seq::new(TRAP_REGS as nat, |i: int| 0usize),
            cx.sstatus == 0,
            cx.sepc == 0,
    {
        let mut x: Vec<usize> = Vec::new();
        let mut i: usize = 0;
        while i < TRAP_REGS
            invariant
                i <= TRAP_REGS,
                x@ == Seq::new(i as nat, |k: int| 0usize),
            decreases TRAP_REGS - i,
        {
            x.push(0);
            i += 1;
            proof {
                assert(x@ =~= Seq::new(i as nat, |k: int| 0usize));
            }
        }
        TrapContext { x, sstatus: 0, sepc: 0 }
    }

    /// The context a forked child starts from: the caller's, with `x10`
    /// (the return value) set to 0.
    pub fn for_child(&self) -> (cx: Self)
        requires
            self.x@.len() == TRAP_REGS,
        ensures
            cx.x@ == self.x@.update(10, 0),
            cx.sstatus == self.sstatus,
            cx.sepc == self.sepc,
    {
        let mut x: Vec<usize> = Vec::new();
        let mut i: usize = 0;
        while i < self.x.len()
            invariant
                i <= self.x@.len(),
                self.x@.len() == TRAP_REGS,
                x@ == self.x@.update(10, 0).subrange(0, i as int),
            decreases self.x@.len() - i,
        {
            x.push(if i == 10 { 0 } else { self.x[i] });
            i += 1;
            proof {
                assert(x@ =~= self.x@.update(10, 0).subrange(0, i as int));
            }
        }
        proof {
            assert(x@ =~= self.x@.update(10, 0));
        }
        TrapContext { x, sstatus: self.sstatus, sepc: self.sepc }
    }
}

/// Causes of a trap that the kernel tells apart.
#[derive(PartialEq, Eq, Structural, Debug, Clone, Copy)]
pub enum TrapCause {
    UserEnvCall,
    StoreFault,
    StorePageFault,
    InstructionFault,
    InstructionPageFault,
    LoadFault,
    LoadPageFault,
    IllegalInstruction,
    SupervisorTimer,
    SupervisorSoft,
    Other,
}

/// What to do with a trap taken from user mode.
#[derive(PartialEq, Eq, Structural, Debug, Clone, Copy)]
pub enum UserTrapAction {
    /// Step past `ecall` (`sepc += 4`) and run the system call named by x17.
    Syscall,
    /// Raise these signals on the current process.
    Signal(u32),
    /// Set the next timer interrupt, wake the due sleepers, and yield.
    Preempt,
    /// Stop the kernel with a diagnostic.
    Fatal,
}

/// What to do with a trap taken in supervisor mode.
#[derive(PartialEq, Eq, Structural, Debug, Clone, Copy)]
pub enum KernelTrapAction {
    /// Set the next timer interrupt and go on.
    ResetTimer,
    /// Stop the kernel with a diagnostic.
    Fatal,
}

pub open spec fn is_memory_fault(cause: TrapCause) -> bool {
    cause == TrapCause::StoreFault || cause == TrapCause::StorePageFault || cause == TrapCause::InstructionFault
        || cause == TrapCause::InstructionPageFault || cause == TrapCause::LoadFault || cause
        == TrapCause::LoadPageFault
}

/// Action for a trap from user mode: system calls run, memory faults raise
/// SIGSEGV, illegal instructions SIGILL, the timer preempts, and anything
/// else is fatal.
pub fn user_trap_action(cause: TrapCause) -> (a: UserTrapAction)
    ensures
        cause == TrapCause::UserEnvCall ==> a == UserTrapAction::Syscall,
        is_memory_fault(cause) ==> a == UserTrapAction::Signal(SIGSEGV),
        cause == TrapCause::IllegalInstruction ==> a == UserTrapAction::Signal(SIGILL),
        cause == TrapCause::SupervisorTimer ==> a == UserTrapAction::Preempt,
        (cause == TrapCause::SupervisorSoft || cause == TrapCause::Other) ==> a == UserTrapAction::Fatal,
{
    match cause {
        TrapCause::UserEnvCall => UserTrapAction::Syscall,
        TrapCause::StoreFault | TrapCause::StorePageFault | TrapCause::InstructionFault
        | TrapCause::InstructionPageFault | TrapCause::LoadFault | TrapCause::LoadPageFault => {
            UserTrapAction::Signal(SIGSEGV)
        },
        TrapCause::IllegalInstruction => UserTrapAction::Signal(SIGILL),
        TrapCause::SupervisorTimer => UserTrapAction::Preempt,
        _ => UserTrapAction::Fatal,
    }
}

/// Action for a trap taken in supervisor mode: only the timer is
/// survived; the kernel does not support any other re-entry.
pub fn kernel_trap_action(cause: TrapCause) -> (a: KernelTrapAction)
    ensures
        a == if cause == TrapCause::SupervisorTimer {
            KernelTrapAction::ResetTimer
        } else {
            KernelTrapAction::Fatal
        },
{
    match cause {
        TrapCause::SupervisorTimer => KernelTrapAction::ResetTimer,
        _ => KernelTrapAction::Fatal,
    }
}

/// The program counter to resume at after a system call from `sepc`.
pub fn syscall_resume_pc(sepc: usize) -> (r: usize)
    requires
        sepc <= usize::MAX - 4,
    ensures
        r == sepc + 4,
{
    sepc + 4
}

} // verus!
