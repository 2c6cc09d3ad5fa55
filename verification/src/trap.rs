//! The trap context saved on entry to the kernel.
use vstd::prelude::*;

verus! {

/// The supervisor status value with the previous privilege set to user mode: the
/// SPP bit (bit 8) cleared, every other bit kept.
pub open spec fn user_mode_sstatus(bits: usize) -> usize {
    bits & !0x100usize
}

/// Registers and kernel information saved when a trap enters the kernel.
#[derive(Clone, Copy)]
pub struct TrapContext {
    /// General-purpose registers x0 to x31.
    pub x: [usize; 32],
    /// Supervisor status register.
    pub sstatus: usize,
    /// Supervisor exception program counter.
    pub sepc: usize,
    /// Token of the kernel address space.
    pub kernel_satp: usize,
    /// Kernel stack pointer of the current application.
    pub kernel_sp: usize,
    /// Virtual address of the trap handler entry point in the kernel.
    pub trap_handler: usize,
}

impl TrapContext {
    /// Put the stack pointer into register x2.
    pub fn set_sp(&mut self, sp: usize)
        ensures
            final(self).x@ == old(self).x@.update(2, sp),
            final(self).sstatus == old(self).sstatus,
            final(self).sepc == old(self).sepc,
            final(self).kernel_satp == old(self).kernel_satp,
            final(self).kernel_sp == old(self).kernel_sp,
            final(self).trap_handler == old(self).trap_handler,
    {
        self.x[2] = sp;
    }

    /// The trap context an application starts from: all registers zero but the
    /// stack pointer, the status of the kernel (`sstatus`, as read from the register)
    /// switched to return to user mode, and the given entry point and kernel data.
    pub fn app_init_context(
        entry: usize,
        sp: usize,
        kernel_satp: usize,
        kernel_sp: usize,
        trap_handler: usize,
        sstatus: usize,
    ) -> (cx: Self)
        ensures
            cx.x@ == Seq::new(32, |i: int| 0usize).update(2, sp),
            cx.sstatus == user_mode_sstatus(sstatus),
            cx.sepc == entry,
            cx.kernel_satp == kernel_satp,
            cx.kernel_sp == kernel_sp,
            cx.trap_handler == trap_handler,
    {
        let sstatus = sstatus & !0x100usize;
        let mut cx = TrapContext {
            x: [0usize; 32],
            sstatus,
            sepc: entry,
            kernel_satp,
            kernel_sp,
            trap_handler,
        };
        proof {
            assert(cx.x@ =~= Seq::new(32, |i: int| 0usize));
        }
        cx.set_sp(sp);
        cx
    }
}

} // verus!
