//! The debugger: one machine with breakpoints, an optional UART and a serializable session.
use vstd::prelude::*;

use crate::image::{image_bytes, image_fits, image_shape, lemma_image_injective, words_bytes};
use crate::mmio::uart::{connect_uart, Uart, OR, U_IFL, U_IN};
use crate::util::{be_word, u16_from_be, word_bytes, BError};
use crate::vm::{clamped_range, cycle_effect, description_ok, mapped_ram, setup_ok, setup_regions, Register, Vm, VmDescription, RAM_LEN};

verus! {

/// No value occurs twice in `s`.
pub open spec fn no_dups(s: Seq<u16>) -> bool {
    forall|i: int, j: int| 0 <= i < s.len() && 0 <= j < s.len() && i != j ==> s[i] != s[j]
}

/// The magic of a session: `BDB\0BPS\0`.
pub open spec fn session_magic() -> Seq<u8> {
    seq![0x42u8, 0x44u8, 0x42u8, 0u8, 0x42u8, 0x50u8, 0x53u8, 0u8]
}

/// The bytes of a session before the machine image: magic, count, breakpoints, separators.
pub open spec fn session_head(bps: Seq<u16>) -> Seq<u8> {
    session_magic() + word_bytes(bps.len() as u16) + seq![0u8] + words_bytes(bps) + seq![0u8]
}

/// The number of breakpoints a session announces.
pub open spec fn announced_breakpoints(b: Seq<u8>) -> int {
    be_word(b[8], b[9]) as int
}

/// The machine image inside session bytes.
pub open spec fn session_image(b: Seq<u8>) -> Seq<u8> {
    b.subrange(12 + 2 * announced_breakpoints(b), b.len() as int)
}

/// Breakpoint `k` of session bytes.
pub open spec fn session_breakpoint(b: Seq<u8>, k: int) -> u16 {
    be_word(b[11 + 2 * k], b[12 + 2 * k])
}

/// The bytes have the layout of a session around an image.
pub open spec fn session_shape(b: Seq<u8>) -> bool {
    &&& b.len() >= 12
    &&& b.subrange(0, 8) == session_magic()
    &&& b[10] == 0
    &&& b.len() >= 12 + 2 * announced_breakpoints(b)
    &&& b[11 + 2 * announced_breakpoints(b)] == 0
    &&& image_shape(session_image(b))
}

/// Every description that the image inside the session bytes can stand for builds a machine.
pub open spec fn session_machine_ok(b: Seq<u8>) -> bool {
    forall|d: VmDescription|
        image_fits(&d) && #[trigger] image_bytes(&d) == session_image(b) ==> setup_ok(
            d.rom@.len() as int,
            d.rom_mappings@,
            Seq::empty(),
        )
}

/// What the debugger steps through: the machine, the UART and the UART output collected.
pub type DbgState = (Vm, Uart, Seq<char>);

/// `trace` is a run of successful cycles, each state one cycle after the one before, and no
/// state but the first and the last has its PC on a breakpoint.
pub open spec fn quiet_run(trace: Seq<DbgState>, uart: bool, bps: Seq<u16>) -> bool {
    &&& trace.len() >= 1
    &&& forall|i: int| 0 <= i < trace.len() - 1 ==> #[trigger] step_ok(trace, uart, i)
    &&& forall|i: int| 1 <= i < trace.len() - 1 ==> #[trigger] off_breakpoint(trace, bps, i)
}

/// State `i + 1` of `trace` is one successful cycle after state `i`.
pub open spec fn step_ok(trace: Seq<DbgState>, uart: bool, i: int) -> bool {
    debug_cycle(uart, trace[i], trace[i + 1], Ok(()))
}

/// Starting from `u0`, the writes `evs` reached the UART in order, leaving it as `u1`.
pub open spec fn writes_reach(u0: Uart, evs: Seq<(u16, u16)>, u1: Uart) -> bool {
    exists|us: Seq<Uart>| #[trigger] uart_states(us, u0, evs, u1)
}

/// `us` are the UART states as the writes `evs` reach it one after another.
pub open spec fn uart_states(us: Seq<Uart>, u0: Uart, evs: Seq<(u16, u16)>, u1: Uart) -> bool {
    &&& us.len() == evs.len() + 1
    &&& us[0] == u0
    &&& us[us.len() - 1] == u1
    &&& forall|i: int| 0 <= i < evs.len() ==> #[trigger] us[i].on_write_effect(&us[i + 1], evs[i].0, evs[i].1)
}

/// After a successful machine cycle that left `v`, and the recorded writes that left the UART as
/// `u1`: the oldest output byte, if any, was taken from the UART and added to the text, and the
/// UART's read register and input flags were copied to `U_IN` and `U_IFL`, giving `b`.
pub open spec fn uart_synced(v: Vm, u1: Uart, ta: Seq<char>, b: DbgState) -> bool {
    let (w, ub, tb) = b;
    &&& u1.output_spec().len() == 0 ==> u1.take_output_effect(&ub, None) && tb == ta
    &&& u1.output_spec().len() > 0 ==> u1.take_output_effect(&ub, Some(u1.output_spec().last()))
        && tb == ta.push(u1.output_spec().last() as char)
    &&& w.pc_spec() == v.pc_spec()
    &&& w.rom_spec() == v.rom_spec()
    &&& w.mem_spec().regs() == v.mem_spec().regs()
    &&& w.mem_spec().ram_spec().regions() == v.mem_spec().ram_spec().regions()
    &&& w.mem_spec().ram_spec().watched() == v.mem_spec().ram_spec().watched()
    &&& w.mem_spec().ram_spec().events() == Seq::<(u16, u16)>::empty()
    &&& w.mem_spec().ram_spec().cells() == v.mem_spec().ram_spec().cells().update(
        U_IN as int,
        ub.read_reg_spec() as u16,
    ).update(U_IFL as int, ub.flags_spec())
}

/// One cycle of the debugger from `a` to `b` that returned `c`. Without the UART it is a cycle
/// of the machine. With it, a successful machine cycle leaving `v` is followed by the recorded
/// writes reaching the UART (`writes_reach`) and by `uart_synced`; a failed one changes nothing
/// but the machine.
pub open spec fn debug_cycle(uart: bool, a: DbgState, b: DbgState, c: Result<(), BError>) -> bool {
    if !uart {
        cycle_effect(&a.0, &b.0, c) && b.1 == a.1 && b.2 == a.2
    } else if c is Ok {
        exists|v: Vm, u1: Uart|
            #![trigger cycle_effect(&a.0, &v, c), writes_reach(a.1, v.mem_spec().ram_spec().events(), u1)]
            cycle_effect(&a.0, &v, c) && writes_reach(a.1, v.mem_spec().ram_spec().events(), u1)
                && uart_synced(v, u1, a.2, b)
    } else {
        cycle_effect(&a.0, &b.0, c) && b.1 == a.1 && b.2 == a.2
    }
}

/// The PC of state `i` of `trace` is on no breakpoint.
pub open spec fn off_breakpoint(trace: Seq<DbgState>, bps: Seq<u16>, i: int) -> bool {
    !bps.contains(trace[i].0.pc_spec())
}

/// `vm` is the machine that description `d` builds, with the UART mounted when `uart` holds.
pub open spec fn built_from(vm: Vm, d: VmDescription, uart: bool) -> bool {
    let blocks = if uart {
        d.rom_blocks@.push((U_IN, 1u16))
    } else {
        d.rom_blocks@
    };
    let mem = if uart {
        d.mem@.update(U_IFL as int, OR)
    } else {
        d.mem@
    };
    &&& vm.pc_spec() == d.pc
    &&& vm.rom_spec() == d.rom@
    &&& vm.mem_spec().regs() == d.regs@
    &&& vm.mem_spec().ram_spec().cells() == mapped_ram(mem, d.rom@, d.rom_mappings@)
    &&& vm.mem_spec().ram_spec().regions() == setup_regions(d.rom_mappings@, blocks)
}

/// `vm` is the machine that the image `b` describes.
pub open spec fn built_from_image(vm: Vm, b: Seq<u8>, uart: bool) -> bool {
    exists|d: VmDescription|
        image_fits(&d) && #[trigger] image_bytes(&d) == b && d.rom_blocks@.len() == 0 && built_from(vm, d, uart)
}

/// A machine with breakpoints, an optional UART and the UART output not yet taken.
pub struct Debugger {
    vm: Vm,
    breakpoints: Vec<u16>,
    halted: bool,
    use_uart: bool,
    uart: Uart,
    current_uart_out: Vec<char>,
}

impl Debugger {
    pub closed spec fn machine(&self) -> Vm {
        self.vm
    }

    pub closed spec fn breakpoint_list(&self) -> Seq<u16> {
        self.breakpoints@
    }

    pub closed spec fn is_halted(&self) -> bool {
        self.halted
    }

    pub closed spec fn uart_on(&self) -> bool {
        self.use_uart
    }

    pub closed spec fn uart_state(&self) -> Uart {
        self.uart
    }

    pub closed spec fn uart_text(&self) -> Seq<char> {
        self.current_uart_out@
    }

    /// The machine, the UART and the UART output collected.
    pub open spec fn snapshot(&self) -> DbgState {
        (self.machine(), self.uart_state(), self.uart_text())
    }

    pub open spec fn wf(&self) -> bool {
        &&& self.machine().wf()
        &&& self.uart_state().wf()
        &&& no_dups(self.breakpoint_list())
    }

    fn add_breakpoint(list: &mut Vec<u16>, bp: u16)
        requires
            no_dups(old(list)@),
        ensures
            no_dups(final(list)@),
            forall|p: u16| #[trigger] final(list)@.contains(p) <==> old(list)@.contains(p) || p == bp,
    {
        let mut i: usize = 0;
        while i < list.len()
            invariant
                list@ == old(list)@,
                no_dups(list@),
                i <= list@.len(),
                forall|k: int| 0 <= k < i ==> list@[k] != bp,
            decreases list@.len() - i,
        {
            if list[i] == bp {
                proof {
                    assert(list@[i as int] == bp);
                }
                return;
            }
            i += 1;
        }
        let ghost before = list@;
        list.push(bp);
        proof {
            assert forall|p: u16| #[trigger] list@.contains(p) <==> before.contains(p) || p == bp by {
                if before.contains(p) {
                    let k = choose|k: int| 0 <= k < before.len() && before[k] == p;
                    assert(list@[k] == p);
                }
                if p == bp {
                    assert(list@[before.len() as int] == p);
                }
                if list@.contains(p) && p != bp {
                    let k = choose|k: int| 0 <= k < list@.len() && list@[k] == p;
                    assert(before[k] == p);
                }
            }
        }
    }

    /// A debugger on the machine that `description` builds, with a UART mounted when
    /// `use_uart` holds.
    pub fn new(description: VmDescription, breakpoints: Vec<u16>, use_uart: bool) -> (r: Result<Self, BError>)
        requires
            description.wf(),
        ensures
            !use_uart ==> (r is Ok <==> description_ok(&description)),
            use_uart ==> (r is Ok <==> setup_ok(
                description.rom@.len() as int,
                description.rom_mappings@,
                description.rom_blocks@.push((U_IN, 1u16)),
            )),
            r matches Ok(d) ==> {
                &&& d.wf()
                &&& !d.is_halted()
                &&& d.uart_on() == use_uart
                &&& d.uart_text() == Seq::<char>::empty()
                &&& built_from(d.machine(), description, use_uart)
                &&& forall|p: u16| #[trigger] d.breakpoint_list().contains(p) <==> breakpoints@.contains(p)
            },
    {
        let (vm, uart) = if use_uart {
            connect_uart(description)?
        } else {
            (Vm::new(description)?, Uart::new())
        };
        let mut list: Vec<u16> = Vec::new();
        let mut i: usize = 0;
        while i < breakpoints.len()
            invariant
                i <= breakpoints@.len(),
                no_dups(list@),
                forall|p: u16| #[trigger] list@.contains(p) <==> breakpoints@.take(i as int).contains(p),
            decreases breakpoints@.len() - i,
        {
            Debugger::add_breakpoint(&mut list, breakpoints[i]);
            proof {
                assert forall|p: u16| #[trigger] list@.contains(p) <==> breakpoints@.take(i as int + 1).contains(p) by {
                    let t0 = breakpoints@.take(i as int);
                    let t1 = breakpoints@.take(i as int + 1);
                    assert(t1 =~= t0.push(breakpoints@[i as int]));
                    if t0.contains(p) {
                        let k = choose|k: int| 0 <= k < t0.len() && t0[k] == p;
                        assert(t1[k] == p);
                    }
                    if t1.contains(p) {
                        let k = choose|k: int| 0 <= k < t1.len() && t1[k] == p;
                        if k < i {
                            assert(t0[k] == p);
                        }
                    }
                    assert(t1[i as int] == breakpoints@[i as int]);
                }
            }
            i += 1;
        }
        proof {
            assert(breakpoints@.take(i as int) =~= breakpoints@);
        }
        Ok(Debugger { vm, breakpoints: list, halted: false, use_uart, uart, current_uart_out: Vec::new() })
    }

    /// One cycle; with the UART, the recorded writes reach it and its input byte and flags are
    /// copied to `U_IN` and `U_IFL`.
    fn cycle(&mut self) -> (r: Result<(), BError>)
        requires
            old(self).wf(),
        ensures
            final(self).wf(),
            final(self).breakpoint_list() == old(self).breakpoint_list(),
            final(self).is_halted() == old(self).is_halted(),
            final(self).uart_on() == old(self).uart_on(),
            final(self).machine().rom_spec() == old(self).machine().rom_spec(),
            debug_cycle(old(self).uart_on(), old(self).snapshot(), final(self).snapshot(), r),
    {
        match self.vm.cycle() {
            Ok(()) => {},
            Err(e) => {
                return Err(e);
            },
        }
        if self.use_uart {
            let ghost v = self.vm;
            let events = self.vm.take_write_events();
            let ghost v2 = self.vm;
            let ghost u0 = self.uart;
            let ghost mut us: Seq<Uart> = seq![self.uart];
            proof {
                assert(events@.take(0) =~= Seq::<(u16, u16)>::empty());
            }
            let mut i: usize = 0;
            while i < events.len()
                invariant
                    self.uart.wf(),
                    self.vm.wf(),
                    no_dups(self.breakpoints@),
                    self.breakpoints == old(self).breakpoints,
                    self.halted == old(self).halted,
                    self.use_uart == old(self).use_uart,
                    self.vm.rom_spec() == old(self).vm.rom_spec(),
                    self.vm == v2,
                    self.current_uart_out == old(self).current_uart_out,
                    i <= events@.len(),
                    uart_states(us, u0, events@.take(i as int), self.uart),
                decreases events@.len() - i,
            {
                let (addr, value) = events[i];
                let ghost um = self.uart;
                self.uart.on_write(addr, value);
                proof {
                    let evs = events@.take(i as int + 1);
                    let us2 = us.push(self.uart);
                    assert(evs[i as int] == (addr, value));
                    assert forall|k: int| 0 <= k < evs.len() implies #[trigger] us2[k].on_write_effect(&us2[k + 1], evs[k].0, evs[k].1) by {
                        if k < i {
                            assert(us2[k] == us[k] && us2[k + 1] == us[k + 1]);
                            assert(evs[k] == events@.take(i as int)[k]);
                        } else {
                            assert(us2[k] == um && us2[k + 1] == self.uart);
                        }
                    }
                    us = us2;
                }
                i += 1;
            }
            proof {
                assert(events@.take(i as int) =~= events@);
                assert(uart_states(us, u0, events@, self.uart));
            }
            let ghost u1 = self.uart;
            let ghost t0 = self.current_uart_out@;
            match self.uart.get_output() {
                Some(b) => {
                    self.current_uart_out.push(b as char);
                },
                None => {},
            }
            let x = self.uart.get_input();
            let y = self.uart.get_in_flags();
            self.vm.set_ram(U_IN, x);
            self.vm.set_ram(U_IFL, y);
            proof {
                assert(self.vm.mem_spec().ram_spec().cells() == v.mem_spec().ram_spec().cells().update(
                    U_IN as int,
                    x,
                ).update(U_IFL as int, y));
                assert(uart_synced(v, u1, t0, self.snapshot()));
                assert(cycle_effect(&old(self).vm, &v, Ok(())));
                assert(writes_reach(u0, v.mem_spec().ram_spec().events(), u1));
                assert(u0 == old(self).uart);
                assert(t0 == old(self).current_uart_out@);
                assert(writes_reach(old(self).snapshot().1, v.mem_spec().ram_spec().events(), u1));
                assert(cycle_effect(&old(self).snapshot().0, &v, Ok(())));
                assert(uart_synced(v, u1, old(self).snapshot().2, self.snapshot()));
                assert(debug_cycle(true, old(self).snapshot(), self.snapshot(), Ok(())));
            }
        }
        Ok(())
    }

    /// Puts a byte into the UART's input queue (when there is a UART).
    pub fn write_uart_byte(&mut self, byte: u8)
        requires
            old(self).wf(),
        ensures
            final(self).wf(),
            final(self).machine() == old(self).machine(),
            final(self).breakpoint_list() == old(self).breakpoint_list(),
            final(self).is_halted() == old(self).is_halted(),
            final(self).uart_on() == old(self).uart_on(),
            final(self).uart_text() == old(self).uart_text(),
            !old(self).uart_on() ==> final(self).uart_state() == old(self).uart_state(),
            old(self).uart_on() ==> old(self).uart_state().put_input_effect(&final(self).uart_state(), byte),
    {
        if self.use_uart {
            self.uart.put_input(byte);
        }
    }

    /// Takes the UART output collected so far.
    pub fn get_uart_out(&mut self) -> (r: String)
        ensures
            r@ == old(self).uart_text(),
            final(self).uart_text() == Seq::<char>::empty(),
            final(self).machine() == old(self).machine(),
            final(self).breakpoint_list() == old(self).breakpoint_list(),
            final(self).is_halted() == old(self).is_halted(),
            final(self).uart_on() == old(self).uart_on(),
            final(self).uart_state() == old(self).uart_state(),
    {
        let out = crate::util::string_of(self.current_uart_out.as_slice());
        self.current_uart_out = Vec::new();
        out
    }

    /// All of ROM.
    pub fn get_rom(&self) -> (r: &[u16])
        ensures
            r@ == clamped_range(self.machine().rom_spec(), 0, 0xffff),
    {
        self.vm.get_rom_region(0, 0xffff)
    }

    /// Runs one cycle unless the machine halted; reaching the end of ROM halts it. Other
    /// errors are returned.
    pub fn step(&mut self) -> (r: Result<(), BError>)
        requires
            old(self).wf(),
        ensures
            final(self).wf(),
            old(self).is_halted() ==> r is Ok && final(self).machine() == old(self).machine()
                && final(self).is_halted(),
            final(self).breakpoint_list() == old(self).breakpoint_list(),
            final(self).machine().rom_spec() == old(self).machine().rom_spec(),
            !old(self).is_halted() ==> exists|c: Result<(), BError>|
                {
                    &&& #[trigger] debug_cycle(old(self).uart_on(), old(self).snapshot(), final(self).snapshot(), c)
                    &&& final(self).is_halted() == (c matches Err(BError::ExecutionHaltedError { .. }))
                    &&& r is Err == (c is Err && !final(self).is_halted())
                },
    {
        if self.halted {
            return Ok(());
        }
        let res = self.cycle();
        let ghost c = res;
        proof {
            assert(debug_cycle(old(self).uart_on(), old(self).snapshot(), self.snapshot(), c));
        }
        let r = match res {
            Ok(u) => Ok(u),
            Err(BError::ExecutionHaltedError { value }) => {
                self.halted = true;
                Ok(())
            },
            Err(e) => Err(e),
        };
        proof {
            assert(self.is_halted() == (c matches Err(BError::ExecutionHaltedError { .. })));
            assert(r is Err == (c is Err && !self.is_halted()));
            assert(debug_cycle(old(self).uart_on(), old(self).snapshot(), self.snapshot(), c));
        }
        r
    }

    /// The words of RAM `from .. from + length`, cut off at the end of RAM.
    pub fn inspect_memory(&self, from: u16, length: u16) -> (r: &[u16])
        ensures
            r@ == clamped_range(self.machine().mem_spec().ram_spec().cells(), from as int, length as int),
    {
        self.vm.get_ram_region(from, length as usize)
    }

    /// Stores `values` in RAM from `from` on, without access checks; fails when they do not fit.
    pub fn set_memory(&mut self, from: u16, values: Vec<u16>) -> (r: Result<(), BError>)
        requires
            old(self).wf(),
        ensures
            final(self).wf(),
            r is Ok <==> from as int + values@.len() <= RAM_LEN,
            r matches Err(e) ==> e matches BError::OutOfBoundsError(a, l, n) && a == from && l
                == values@.len() && n == RAM_LEN,
            final(self).machine().mem_spec().regs() == old(self).machine().mem_spec().regs(),
            final(self).machine().mem_spec().ram_spec().regions() == old(self).machine().mem_spec().ram_spec().regions(),
            final(self).uart_state() == old(self).uart_state(),
            final(self).uart_on() == old(self).uart_on(),
            r is Ok ==> final(self).machine().mem_spec().ram_spec().cells() == old(self).machine().mem_spec().ram_spec().cells().subrange(0, from as int)
                + values@ + old(self).machine().mem_spec().ram_spec().cells().subrange(
                from as int + values@.len(),
                RAM_LEN as int,
            ),
            r is Err ==> final(self).machine() == old(self).machine(),
            final(self).machine().pc_spec() == old(self).machine().pc_spec(),
            final(self).machine().rom_spec() == old(self).machine().rom_spec(),
            final(self).breakpoint_list() == old(self).breakpoint_list(),
            final(self).is_halted() == old(self).is_halted(),
    {
        let n = values.len();
        if n > RAM_LEN || from as usize > RAM_LEN - n {
            return Err(BError::OutOfBoundsError(from, n, RAM_LEN));
        }
        let ghost old_cells = self.vm.mem_spec().ram_spec().cells();
        let mut i: usize = 0;
        while i < n
            invariant
                n == values@.len(),
                from as int + n <= RAM_LEN,
                i <= n,
                self.vm.wf(),
                self.uart.wf(),
                no_dups(self.breakpoints@),
                self.breakpoints == old(self).breakpoints,
                self.halted == old(self).halted,
                self.vm.pc_spec() == old(self).vm.pc_spec(),
                self.vm.rom_spec() == old(self).vm.rom_spec(),
                self.vm.mem_spec().regs() == old(self).vm.mem_spec().regs(),
                self.vm.mem_spec().ram_spec().regions() == old(self).vm.mem_spec().ram_spec().regions(),
                self.uart == old(self).uart,
                self.use_uart == old(self).use_uart,
                old_cells == old(self).vm.mem_spec().ram_spec().cells(),
                old_cells.len() == RAM_LEN,
                forall|k: int|
                    0 <= k < RAM_LEN ==> #[trigger] self.vm.mem_spec().ram_spec().cells()[k] == if from <= k < from + i {
                        values@[k - from]
                    } else {
                        old_cells[k]
                    },
            decreases n - i,
        {
            self.vm.set_ram(from + i as u16, values[i]);
            i += 1;
        }
        proof {
            assert(self.vm.mem_spec().ram_spec().cells() =~= old_cells.subrange(0, from as int) + values@
                + old_cells.subrange(from as int + n, RAM_LEN as int));
        }
        Ok(())
    }

    /// The value of a register.
    pub fn inspect_reg(&self, register: Register) -> (r: u16)
        requires
            self.wf(),
        ensures
            r == self.machine().mem_spec().reg_value(register),
    {
        self.vm.get_reg(register)
    }

    /// The words of ROM `from .. from + length`, cut off at the end of ROM.
    pub fn inspect_rom(&self, from: u16, length: u16) -> (r: &[u16])
        ensures
            r@ == clamped_range(self.machine().rom_spec(), from as int, length as int),
    {
        self.vm.get_rom_region(from, length as usize)
    }

    /// Writes a register; `*A` goes through the access levels of RAM.
    pub fn set_reg(&mut self, register: Register, value: u16)
        requires
            old(self).wf(),
        ensures
            final(self).wf(),
            old(self).machine().mem_spec().set_effect(&final(self).machine().mem_spec(), register, value),
            final(self).machine().pc_spec() == old(self).machine().pc_spec(),
            final(self).breakpoint_list() == old(self).breakpoint_list(),
            final(self).is_halted() == old(self).is_halted(),
    {
        self.vm.set_reg(register, value);
    }

    pub fn set_pc(&mut self, new_value: u16)
        requires
            old(self).wf(),
        ensures
            final(self).wf(),
            final(self).machine().pc_spec() == new_value,
            final(self).machine().mem_spec() == old(self).machine().mem_spec(),
            final(self).breakpoint_list() == old(self).breakpoint_list(),
            final(self).is_halted() == old(self).is_halted(),
    {
        self.vm.set_pc(new_value);
    }

    pub fn get_pc(&self) -> (r: u16)
        ensures
            r == self.machine().pc_spec(),
    {
        self.vm.get_pc()
    }

    fn at_breakpoint(&self) -> (r: bool)
        ensures
            r == self.breakpoint_list().contains(self.machine().pc_spec()),
    {
        let pc = self.vm.get_pc();
        let mut i: usize = 0;
        while i < self.breakpoints.len()
            invariant
                pc == self.vm.pc_spec(),
                i <= self.breakpoints@.len(),
                forall|k: int| 0 <= k < i ==> self.breakpoints@[k] != pc,
            decreases self.breakpoints@.len() - i,
        {
            if self.breakpoints[i] == pc {
                proof {
                    assert(self.breakpoints@[i as int] == pc);
                }
                return true;
            }
            i += 1;
        }
        false
    }

    /// Runs up to `max_iter` cycles; stops early when the machine halts or PC reaches a
    /// breakpoint after a cycle. Errors other than halting are returned.
    pub fn run(&mut self, max_iter: usize) -> (r: Result<(), BError>)
        requires
            old(self).wf(),
        ensures
            final(self).wf(),
            old(self).is_halted() ==> r is Ok && final(self).machine() == old(self).machine()
                && final(self).is_halted(),
            final(self).breakpoint_list() == old(self).breakpoint_list(),
            final(self).machine().rom_spec() == old(self).machine().rom_spec(),
            !old(self).is_halted() ==> exists|trace: Seq<DbgState>|
                {
                    let bps = old(self).breakpoint_list();
                    let last = trace[trace.len() - 1];
                    &&& #[trigger] quiet_run(trace, old(self).uart_on(), old(self).breakpoint_list())
                    &&& trace[0] == old(self).snapshot()
                    &&& trace.len() - 1 <= max_iter
                    &&& if final(self).is_halted() {
                        &&& r is Ok
                        &&& trace.len() - 1 < max_iter
                        &&& debug_cycle(
                            old(self).uart_on(),
                            last,
                            final(self).snapshot(),
                            Err(BError::ExecutionHaltedError { value: last.0.pc_spec() }),
                        )
                    } else if r is Err {
                        &&& trace.len() - 1 < max_iter
                        &&& debug_cycle(old(self).uart_on(), last, final(self).snapshot(), r)
                    } else {
                        &&& final(self).snapshot() == last
                        &&& trace.len() - 1 == max_iter || (trace.len() > 1 && bps.contains(last.0.pc_spec()))
                    }
                },
    {
        if self.halted {
            return Ok(());
        }
        let ghost mut trace: Seq<DbgState> = seq![self.snapshot()];
        let mut i: usize = 0;
        while i < max_iter
            invariant
                self.wf(),
                !self.halted,
                !old(self).halted,
                self.use_uart == old(self).use_uart,
                self.breakpoints@ == old(self).breakpoints@,
                self.vm.rom_spec() == old(self).vm.rom_spec(),
                i <= max_iter,
                trace.len() == i + 1,
                trace[0] == old(self).snapshot(),
                trace[trace.len() - 1] == self.snapshot(),
                quiet_run(trace, old(self).use_uart, old(self).breakpoints@),
                forall|k: int| 1 <= k < trace.len() - 1 ==> #[trigger] off_breakpoint(trace, old(self).breakpoints@, k),
                i > 0 ==> !old(self).breakpoints@.contains(self.vm.pc_spec()),
            decreases max_iter - i,
        {
            let ghost before = self.snapshot();
            let res = self.cycle();
            let ghost c = res;
            match res {
                Ok(u) => {
                    proof {
                        assert(c == Ok::<(), BError>(u));
                        assert(debug_cycle(self.use_uart, before, self.snapshot(), Ok(())));
                    }
                },
                Err(BError::ExecutionHaltedError { value }) => {
                    self.halted = true;
                    proof {
                        let last = trace[trace.len() - 1];
                        assert(last == before);
                        assert(quiet_run(trace, old(self).uart_on(), old(self).breakpoint_list()));
                        assert(cycle_effect(&before.0, &self.vm, c));
                        assert(before.0.pc_spec() >= before.0.rom_spec().len());
                        assert(c == Err::<(), BError>(BError::ExecutionHaltedError { value: last.0.pc_spec() }));
                        assert(debug_cycle(self.use_uart, last, self.snapshot(), c));
                    }
                    return Ok(());
                },
                Err(e) => {
                    proof {
                        assert(quiet_run(trace, old(self).uart_on(), old(self).breakpoint_list()));
                        assert(trace[trace.len() - 1] == before);
                        assert(debug_cycle(self.use_uart, before, self.snapshot(), c));
                    }
                    return Err(e);
                },
            }
            proof {
                let t2 = trace.push(self.snapshot());
                assert forall|k: int| 0 <= k < t2.len() - 1 implies #[trigger] step_ok(t2, self.use_uart, k) by {
                    if k < trace.len() - 1 {
                        assert(step_ok(trace, self.use_uart, k));
                        assert(t2[k] == trace[k] && t2[k + 1] == trace[k + 1]);
                    } else {
                        assert(t2[k] == before && t2[k + 1] == self.snapshot());
                    }
                }
                assert forall|k: int| 1 <= k < t2.len() - 1 implies #[trigger] off_breakpoint(t2, old(self).breakpoints@, k) by {
                    if k == trace.len() - 1 {
                        assert(t2[k] == before);
                    }
                    if k < trace.len() - 1 {
                        assert(off_breakpoint(trace, old(self).breakpoints@, k));
                        assert(t2[k] == trace[k]);
                    }
                }
                trace = t2;
            }
            if self.at_breakpoint() {
                proof {
                    assert(quiet_run(trace, old(self).uart_on(), old(self).breakpoint_list()));
                    assert(trace[trace.len() - 1] == self.snapshot());
                }
                return Ok(());
            }
            i += 1;
        }
        proof {
            assert(quiet_run(trace, old(self).uart_on(), old(self).breakpoint_list()));
        }
        Ok(())
    }

    /// Adds a breakpoint at ROM address `breakpoint`.
    pub fn register_breakpoint(&mut self, breakpoint: u16)
        requires
            old(self).wf(),
        ensures
            final(self).wf(),
            forall|p: u16| #[trigger] final(self).breakpoint_list().contains(p) <==> old(self).breakpoint_list().contains(p) || p == breakpoint,
            final(self).machine() == old(self).machine(),
            final(self).is_halted() == old(self).is_halted(),
    {
        Debugger::add_breakpoint(&mut self.breakpoints, breakpoint);
    }

    /// Removes the breakpoint at `breakpoint`; tells whether there was one.
    pub fn remove_breakpoint(&mut self, breakpoint: u16) -> (r: bool)
        requires
            old(self).wf(),
        ensures
            final(self).wf(),
            r == old(self).breakpoint_list().contains(breakpoint),
            forall|p: u16| #[trigger] final(self).breakpoint_list().contains(p) <==> old(self).breakpoint_list().contains(p) && p != breakpoint,
            final(self).machine() == old(self).machine(),
            final(self).is_halted() == old(self).is_halted(),
    {
        let mut i: usize = 0;
        while i < self.breakpoints.len()
            invariant
                i <= self.breakpoints@.len(),
                self.breakpoints == old(self).breakpoints,
                self.vm == old(self).vm,
                self.uart == old(self).uart,
                self.halted == old(self).halted,
                self.use_uart == old(self).use_uart,
                self.current_uart_out == old(self).current_uart_out,
                self.vm.wf(),
                self.uart.wf(),
                no_dups(self.breakpoints@),
                forall|k: int| 0 <= k < i ==> self.breakpoints@[k] != breakpoint,
            decreases self.breakpoints@.len() - i,
        {
            if self.breakpoints[i] == breakpoint {
                let ghost before = self.breakpoints@;
                self.breakpoints.remove(i);
                proof {
                    assert(before[i as int] == breakpoint);
                    assert(self.breakpoints@ =~= before.subrange(0, i as int) + before.subrange(i as int + 1, before.len() as int));
                    assert forall|a: int, b: int| 0 <= a < self.breakpoints@.len() && 0 <= b < self.breakpoints@.len() && a != b implies self.breakpoints@[a] != self.breakpoints@[b] by {
                        let a2 = if a < i { a } else { a + 1 };
                        let b2 = if b < i { b } else { b + 1 };
                        assert(self.breakpoints@[a] == before[a2]);
                        assert(self.breakpoints@[b] == before[b2]);
                    }
                    assert forall|p: u16| #[trigger] self.breakpoints@.contains(p) <==> before.contains(p) && p != breakpoint by {
                        if self.breakpoints@.contains(p) {
                            let k = choose|k: int| 0 <= k < self.breakpoints@.len() && self.breakpoints@[k] == p;
                            let k2 = if k < i { k } else { k + 1 };
                            assert(before[k2] == p);
                            assert(k2 != i);
                        }
                        if before.contains(p) && p != breakpoint {
                            let k = choose|k: int| 0 <= k < before.len() && before[k] == p;
                            assert(k != i);
                            let k2 = if k < i { k } else { k - 1 };
                            assert(self.breakpoints@[k2] == p);
                        }
                    }
                }
                return true;
            }
            i += 1;
        }
        false
    }

    /// The session bytes: magic, breakpoints and the image of the machine's current state.
    /// Access levels, ROM mappings, callbacks, the halted state and the UART are not kept.
    pub fn serialize(&self) -> (r: Result<Vec<u8>, BError>)
        requires
            self.wf(),
        ensures
            r is Ok <==> self.machine().rom_spec().len() <= 0xffff && self.breakpoint_list().len()
                <= 0xffff,
            r matches Ok(b) ==> exists|d: VmDescription|
                {
                    &&& d.pc == self.machine().pc_spec()
                    &&& d.rom@ == self.machine().rom_spec()
                    &&& d.mem@ == self.machine().mem_spec().ram_spec().cells()
                    &&& d.regs@ == self.machine().mem_spec().regs()
                    &&& d.rom_mappings@.len() == 0
                    &&& #[trigger] image_bytes(&d) == b@.subrange(
                        session_head(self.breakpoint_list()).len() as int,
                        b@.len() as int,
                    )
                    &&& b@.subrange(0, session_head(self.breakpoint_list()).len() as int) == session_head(
                        self.breakpoint_list(),
                    )
                },
            r matches Err(e) ==> e is SerializationError,
    {
        let desc = self.vm.to_vm_desc();
        let image = desc.serialize()?;
        let mut output: Vec<u8> = vec![0x42, 0x44, 0x42, 0, 0x42, 0x50, 0x53, 0];
        let n = self.breakpoints.len();
        if n > 0xffff {
            return Err(BError::SerializationError(String::from_str("too many breakpoints")));
        }
        let ghost head0 = output@;
        proof {
            assert(head0 =~= session_magic());
        }
        output.push((n / 256) as u8);
        output.push((n % 256) as u8);
        output.push(0);
        let mut i: usize = 0;
        let ghost before_bps = output@;
        while i < n
            invariant
                n == self.breakpoints@.len(),
                i <= n,
                output@ == before_bps + words_bytes(self.breakpoints@.take(i as int)),
            decreases n - i,
        {
            proof {
                assert(self.breakpoints@.take(i as int + 1).drop_last() =~= self.breakpoints@.take(i as int));
                assert(self.breakpoints@.take(i as int + 1).last() == self.breakpoints@[i as int]);
            }
            let bp = self.breakpoints[i];
            output.push((bp / 256) as u8);
            output.push((bp % 256) as u8);
            proof {
                assert(output@ =~= before_bps + words_bytes(self.breakpoints@.take(i as int + 1)));
            }
            i += 1;
        }
        output.push(0);
        proof {
            assert(self.breakpoints@.take(n as int) =~= self.breakpoints@);
            assert(output@ =~= session_head(self.breakpoints@));
        }
        let ghost head = output@;
        let mut image = image;
        output.append(&mut image);
        proof {
            assert(output@.subrange(0, head.len() as int) =~= head);
            assert(output@.subrange(head.len() as int, output@.len() as int) =~= image_bytes(&desc));
        }
        Ok(output)
    }

    /// Builds a debugger from session bytes: breakpoints, then the image of a machine. The
    /// UART is not kept in sessions, so the debugger has none.
    pub fn deserialize(input: &[u8]) -> (r: Result<Self, BError>)
        ensures
            r is Ok <==> session_shape(input@) && session_machine_ok(input@),
            r matches Ok(d) ==> {
                &&& d.wf()
                &&& !d.is_halted()
                &&& !d.uart_on()
                &&& built_from_image(d.machine(), session_image(input@), false)
                &&& forall|p: u16| #[trigger] d.breakpoint_list().contains(p) <==> exists|k: int|
                    0 <= k < announced_breakpoints(input@) && p == #[trigger] session_breakpoint(input@, k)
            },
            r matches Err(e) ==> e is SerializationError || e is DeserializationError || e is OutOfBoundsError || e is MapError,
    {
        let b = input;
        let n = b.len();
        if n < 12 {
            return Err(BError::SerializationError(String::from_str("file too short or part missing")));
        }
        if !(b[0] == 0x42 && b[1] == 0x44 && b[2] == 0x42 && b[3] == 0 && b[4] == 0x42 && b[5] == 0x50 && b[6] == 0x53 && b[7] == 0) {
            proof {
                assert(!(b@.subrange(0, 8) == session_magic())) by {
                    if b@.subrange(0, 8) == session_magic() {
                        assert(b@[0] == b@.subrange(0, 8)[0]);
                        assert(b@[1] == b@.subrange(0, 8)[1]);
                        assert(b@[2] == b@.subrange(0, 8)[2]);
                        assert(b@[3] == b@.subrange(0, 8)[3]);
                        assert(b@[4] == b@.subrange(0, 8)[4]);
                        assert(b@[5] == b@.subrange(0, 8)[5]);
                        assert(b@[6] == b@.subrange(0, 8)[6]);
                        assert(b@[7] == b@.subrange(0, 8)[7]);
                    }
                }
            }
            return Err(BError::DeserializationError(String::from_str("invalid file format")));
        }
        proof {
            assert(b@.subrange(0, 8) =~= session_magic());
        }
        if b[10] != 0 {
            return Err(BError::DeserializationError(String::from_str("invalid region separators")));
        }
        let count = u16_from_be(b[8], b[9]) as usize;
        if n < 12 + 2 * count || b[11 + 2 * count] != 0 {
            return Err(BError::DeserializationError(String::from_str("invalid region separators")));
        }
        let mut list: Vec<u16> = Vec::new();
        let mut k: usize = 0;
        while k < count
            invariant
                n == b@.len(),
                count == announced_breakpoints(b@),
                n >= 12 + 2 * count,
                k <= count,
                no_dups(list@),
                forall|p: u16| #[trigger] list@.contains(p) <==> exists|j: int|
                    0 <= j < k && p == #[trigger] session_breakpoint(b@, j),
            decreases count - k,
        {
            let bp = u16_from_be(b[11 + 2 * k], b[12 + 2 * k]);
            let ghost before = list@;
            Debugger::add_breakpoint(&mut list, bp);
            proof {
                assert forall|p: u16| #[trigger] list@.contains(p) <==> exists|j: int|
                    0 <= j < k + 1 && p == #[trigger] session_breakpoint(b@, j) by {
                    if p == bp {
                        assert(p == session_breakpoint(b@, k as int));
                    }
                    if exists|j: int| 0 <= j < k + 1 && p == #[trigger] session_breakpoint(b@, j) {
                        let j = choose|j: int| 0 <= j < k + 1 && p == #[trigger] session_breakpoint(b@, j);
                        if j < k {
                            assert(before.contains(p));
                        }
                    }
                }
            }
            k += 1;
        }
        let rest = &b[12 + 2 * count..n];
        proof {
            assert(rest@ =~= session_image(b@));
        }
        let desc = match VmDescription::deserialize(rest) {
            Ok(d) => d,
            Err(e) => {
                return Err(e);
            },
        };
        proof {
            assert(desc.rom_blocks@ =~= Seq::<(u16, u16)>::empty());
            assert forall|d: VmDescription|
                image_fits(&d) && #[trigger] image_bytes(&d) == session_image(b@) implies setup_ok(
                    d.rom@.len() as int,
                    d.rom_mappings@,
                    Seq::empty(),
                ) == description_ok(&desc) by {
                lemma_image_injective(&desc, &d);
            }
            if session_machine_ok(b@) {
                assert(image_bytes(&desc) == session_image(b@));
            }
        }
        let ghost dd = desc;
        let vm = Vm::new(desc)?;
        proof {
            assert(built_from(vm, dd, false));
            assert(image_bytes(&dd) == session_image(b@));
        }
        Ok(Debugger { vm, breakpoints: list, halted: false, use_uart: false, uart: Uart::new(), current_uart_out: Vec::new() })
    }
}

/// A debugger from a session (`coredump`), or from an image with a UART when `use_uart` holds.
pub fn make_dbg(input: &[u8], coredump: bool, use_uart: bool) -> (r: Result<Debugger, BError>)
    ensures
        coredump ==> (r is Ok <==> session_shape(input@) && session_machine_ok(input@)),
        !coredump ==> (r is Ok <==> image_shape(input@) && image_machine_ok(input@, use_uart)),
        r matches Ok(d) ==> d.wf() && !d.is_halted(),
        r matches Ok(d) ==> (coredump ==> built_from_image(d.machine(), session_image(input@), false)),
        r matches Ok(d) ==> (!coredump ==> built_from_image(d.machine(), input@, use_uart) && d.uart_on()
            == use_uart && d.breakpoint_list().len() == 0),
{
    if coredump {
        Debugger::deserialize(input)
    } else {
        let desc = VmDescription::deserialize(input)?;
        proof {
            assert(desc.rom_blocks@ =~= Seq::<(u16, u16)>::empty());
            assert forall|d: VmDescription| image_fits(&d) && #[trigger] image_bytes(&d) == input@ implies
                image_setup_ok(&d, use_uart) == image_setup_ok(&desc, use_uart) by {
                lemma_image_injective(&desc, &d);
            }
            if image_machine_ok(input@, use_uart) {
                assert(image_bytes(&desc) == input@);
            }
        }
        let none: Vec<u16> = Vec::new();
        let r = Debugger::new(desc, none, use_uart);
        proof {
            if r is Ok {
                let d = r->Ok_0;
                assert(built_from(d.machine(), desc, use_uart));
                assert(d.breakpoint_list().len() == 0) by {
                    if d.breakpoint_list().len() > 0 {
                        assert(d.breakpoint_list().contains(d.breakpoint_list()[0]));
                    }
                }
            }
        }
        r
    }
}

/// A description with image `d` builds a machine (with the UART mounted when `uart` holds).
pub open spec fn image_setup_ok(d: &VmDescription, uart: bool) -> bool {
    setup_ok(
        d.rom@.len() as int,
        d.rom_mappings@,
        if uart {
            seq![(U_IN, 1u16)]
        } else {
            Seq::empty()
        },
    )
}

/// Every description that image `b` can stand for builds a machine.
pub open spec fn image_machine_ok(b: Seq<u8>, uart: bool) -> bool {
    forall|d: VmDescription| image_fits(&d) && #[trigger] image_bytes(&d) == b ==> image_setup_ok(&d, uart)
}

} // verus!
